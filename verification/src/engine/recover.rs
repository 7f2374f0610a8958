//! Replaying the log.

use vstd::prelude::*;

use crate::engine::apply::{
    all_marks, all_overlays, places, stops_at, stores_marks, stores_overlay, Applied,
};
use crate::engine::database::{coll_at, lemma_coll_from, lemma_kept_none, Database, Step};
use crate::engine::disk::{lemma_performed_parts, Disk};
use crate::engine::durable::{ascending, durable, is_stored, has_seg, numbered, seg_number};
use crate::engine::fresh::{
    below, fresh, lemma_below, lemma_fresh_both, lemma_renew_fresh, lemma_same_fresh,
    lemma_same_segs, lemma_untrimmed, lemma_write_fresh,
};
use crate::engine::norms::{
    keeps_norms, law_rebuilding_keeps_norms, law_writing_keeps_norms, lemma_until_keeps_norms,
};
use crate::engine::outcome::{
    law_overridden_records_can_be_skipped, law_replay_settles, lemma_needed_order,
    lemma_needed_parts, needed, needs_collection, orderly, outcome, overridden, replayed,
    settled_kept, subject, subject_of, Kept,
};
use crate::engine::plan::{keeps_same, stores_segment};
use crate::engine::renew::{lemma_rebuild_suits, removes, renews, RenewPlan};
use crate::engine::replace::law_rebuild_is_durable;
use crate::engine::size::{
    enlisted, has_space, lemma_rebuild_goes, lemma_rebuilt_same, lemma_roster,
    lemma_spacious_less, same_roster, spacious,
};
use crate::engine::survive::law_write_survives;
use crate::engine::sweep::{
    lemma_rebuild_sweeps, lemma_sweeps_on, lemma_write_sweeps, listed, sweeps,
};
use crate::engine::tally::{
    all_hold, can_hold, lemma_enlisted_after, lemma_holds_less, lemma_points_from,
    lemma_space_after, lemma_worn_few, points_from, points_in, segs_within,
};
use crate::error::{Error, Invalid};
use crate::kernel::{Kernel, Metric};
use crate::manifest::{entry_at, ManifestView};
use crate::segment::immutable::ImmutableSegment;
use crate::segment::mutable::MutableSegment;
use crate::text::is_same;
use crate::wal::{record_views, Op, RecordView, WalRecord};

verus! {

/// What replaying a log did.
pub struct Recovered {
    /// What has to be stored, in order.
    pub steps: Vec<Step>,
    /// How many records were replayed.
    pub replayed: usize,
    /// Why replaying stopped before the end of the log, if it did.
    pub stopped: Option<Error>,
}

/// Whether no step empties the log.
pub open spec fn no_reset(steps: Seq<Step>) -> bool {
    forall|i: int| 0 <= i < steps.len() ==> !((#[trigger] steps[i]) is ResetLog)
}

/// What is stored, with another log.
pub open spec fn with_log(disk: Disk, log: Seq<RecordView>) -> Disk {
    Disk { log, ..disk }
}

/// Steps that do not empty the log leave it alone.
proof fn lemma_log_alone(disk: Disk, steps: Seq<Step>, log: Seq<RecordView>)
    requires
        no_reset(steps),
    ensures
        with_log(disk, log).performed_all(steps) == with_log(disk.performed_all(steps), log),
        disk.performed_all(steps).log == disk.log,
    decreases steps.len(),
{
    if steps.len() > 0 {
        let rest = steps.drop_last();
        assert forall|i: int| 0 <= i < rest.len() implies !((#[trigger] rest[i]) is ResetLog) by {
            assert(!(steps[i] is ResetLog));
        }
        lemma_log_alone(disk, rest, log);
        assert(!(steps[steps.len() - 1] is ResetLog));
    }
}

/// Whether no step writes a new segment.
pub open spec fn no_new(steps: Seq<Step>) -> bool {
    forall|i: int| 0 <= i < steps.len() ==> !((#[trigger] steps[i]) is WriteSegment)
}

/// Applying an operation does not empty the log, and writes no new segment.
proof fn lemma_applies_no_reset<N, S>(
    db: Database,
    after: Database,
    op: Op,
    kernel: Kernel<N, S>,
    a: Applied,
) where N: Fn(&[u32]) -> u32, S: Fn(Metric, &[u32], u32, &[u32], u32) -> u32
    requires
        db.applies(after, op, kernel, a),
    ensures
        no_reset(a.steps@),
        no_new(a.steps@),
{
    let at = coll_at(db.collections@, subject(op@));
    let before = db.collections@[at];
    let new = after.collections@[at];
    match op {
        Op::CreateCollection { .. } => {},
        Op::DropCollection { .. } => {
            assert forall|i: int| 0 <= i < a.steps@.len() implies !((
            #[trigger] a.steps@[i]) is ResetLog) && !(a.steps@[i] is WriteSegment) by {}
        },
        Op::Upsert { points, .. } => {
            if a.steps@.len() > 0 {
                let touched = choose|touched: Seq<bool>| #[trigger]
                    before.view.upserts(new.view, points@, kernel, touched) && all_marks(
                        new.view.immutables@,
                        places(touched),
                        a.steps@,
                    );
                lemma_marks_no_reset(new.view.immutables@, places(touched), a.steps@);
            }
        },
        Op::Delete { ids, .. } => {
            let touched = choose|touched: Seq<bool>| #[trigger]
                before.view.deletes(new.view, ids@, touched) && all_marks(
                    new.view.immutables@,
                    places(touched),
                    a.steps@,
                );
            lemma_marks_no_reset(new.view.immutables@, places(touched), a.steps@);
        },
        Op::SetPayload { ids, payload, .. } => {
            let touched = choose|touched: Seq<bool>| #[trigger]
                before.view.pays(new.view, ids@, Some(payload@), touched) && all_overlays(
                    new.view.immutables@,
                    places(touched),
                    a.steps@,
                );
            lemma_overlays_no_reset(new.view.immutables@, places(touched), a.steps@);
        },
        Op::ClearPayload { ids, .. } => {
            let touched = choose|touched: Seq<bool>| #[trigger]
                before.view.pays(new.view, ids@, None, touched) && all_overlays(
                    new.view.immutables@,
                    places(touched),
                    a.steps@,
                );
            lemma_overlays_no_reset(new.view.immutables@, places(touched), a.steps@);
        },
    }
}

proof fn lemma_marks_no_reset(segs: Seq<ImmutableSegment>, at: Seq<int>, steps: Seq<Step>)
    requires
        all_marks(segs, at, steps),
    ensures
        no_reset(steps),
        no_new(steps),
{
    assert forall|i: int| 0 <= i < steps.len() implies !((#[trigger] steps[i]) is ResetLog) && !(
    steps[i] is WriteSegment) by {
        assert(stores_marks(steps[i], segs[at[i]]));
    }
}

proof fn lemma_overlays_no_reset(segs: Seq<ImmutableSegment>, at: Seq<int>, steps: Seq<Step>)
    requires
        all_overlays(segs, at, steps),
    ensures
        no_reset(steps),
        no_new(steps),
{
    assert forall|i: int| 0 <= i < steps.len() implies !((#[trigger] steps[i]) is ResetLog) && !(
    steps[i] is WriteSegment) by {
        assert(stores_overlay(steps[i], segs[at[i]]));
    }
}

/// Rebuilding a segment does not empty the log.
proof fn lemma_renews_no_reset(
    steps: Seq<Step>,
    seg: Option<ImmutableSegment>,
    seg_id: u64,
    m: MutableSegment,
    manifest: ManifestView,
    gone: Seq<u64>,
)
    requires
        renews(steps, seg, seg_id, m, manifest, gone),
    ensures
        no_reset(steps),
{
    let k = steps.len() - gone.len() - 1;
    assert forall|i: int| 0 <= i < steps.len() implies !((#[trigger] steps[i]) is ResetLog) by {
        if i < k {
            assert(steps.take(k)[i] == steps[i]);
            assert(stores_segment(steps.take(k), seg->0, seg_id, m));
        } else if i > k {
            assert(removes(steps, k + 1 + (i - k - 1), gone[i - k - 1]));
        }
    }
}

/// Whether steps that lead from one state to another can be taken, and write no segment whose
/// number is still to come.
pub open spec fn can_follow(before: Database, after: Database, disk: Disk, steps: Seq<Step>) -> bool {
    below(disk, before.next_seg_id) ==> fresh(disk, steps, 0) && below(
        disk.performed_all(steps),
        after.next_seg_id,
    )
}

/// Whether everything stays stored while some steps are performed that lead from one state
/// to another.
pub open spec fn carries(before: Database, after: Database, steps: Seq<Step>) -> bool {
    forall|disk: Disk, next_lsn: u64| #[trigger]
        durable(before, disk, next_lsn) ==> durable(after, disk.performed_all(steps), next_lsn)
            && can_follow(before, after, disk, steps)
}

/// Numbers that were taken and not used change nothing.
proof fn lemma_only_numbers(start: Database, db: Database, after: Database, steps: Seq<Step>)
    requires
        db.only_numbers(after),
        db.next_seg_id <= after.next_seg_id,
        keeps_same(start, db),
        db.valid(),
        start.apart() ==> db.apart(),
        start.apart() ==> carries(start, db, steps),
    ensures
        keeps_same(start, after),
        after.valid(),
        start.apart() ==> after.apart(),
        start.apart() ==> carries(start, after, steps),
{
    assert forall|name: Seq<char>| #[trigger] after.kept(name) == db.kept(name) by {}
    assert forall|name: Seq<char>| #[trigger] settled_kept(after.kept(name)) == settled_kept(
        start.kept(name),
    ) by {
        assert(settled_kept(db.kept(name)) == settled_kept(start.kept(name)));
    }
    if start.apart() {
        assert forall|disk: Disk, next_lsn: u64| #[trigger]
            durable(start, disk, next_lsn) implies durable(
            after,
            disk.performed_all(steps),
            next_lsn,
        ) && can_follow(start, after, disk, steps) by {
            let end = disk.performed_all(steps);
            assert(durable(db, end, next_lsn));
            lemma_more_numbers(db, after, end, next_lsn);
        }
    }
}

proof fn lemma_more_numbers(db: Database, after: Database, disk: Disk, next_lsn: u64)
    requires
        db.only_numbers(after),
        db.next_seg_id <= after.next_seg_id,
        durable(db, disk, next_lsn),
    ensures
        durable(after, disk, next_lsn),
{
    assert forall|i: int, j: int| #[trigger] has_seg(after, i, j) implies has_seg(db, i, j)
        && seg_number(after, i, j) == seg_number(db, i, j) by {}
    assert(numbered(after)) by {
        assert forall|i: int, j: int, x: int, y: int| #[trigger]
            has_seg(after, i, j) && #[trigger] has_seg(after, x, y) && seg_number(after, i, j)
                == seg_number(after, x, y) implies i == x && j == y by {
            assert(has_seg(db, i, j) && has_seg(db, x, y));
        }
        assert forall|i: int, j: int| #[trigger] has_seg(after, i, j) implies seg_number(
            after,
            i,
            j,
        ) < after.next_seg_id by {
            assert(has_seg(db, i, j));
        }
    }
    assert forall|name: Seq<char>| #[trigger] after.kept(name) == db.kept(name) by {}
    assert forall|name: Seq<char>| #[trigger]
        after.kept(name) is Some <==> entry_at(disk.manifest.entries, name)
            < disk.manifest.entries.len() by {
        assert(db.kept(name) is Some <==> entry_at(disk.manifest.entries, name)
            < disk.manifest.entries.len());
    }
    assert forall|name: Seq<char>| #[trigger]
        settled_kept(disk.recovered(name)) == settled_kept(after.kept(name)) by {
        assert(settled_kept(disk.recovered(name)) == settled_kept(db.kept(name)));
    }
}

/// Two lists of steps that do not empty the log do not do so together.
proof fn lemma_no_reset_both(a: Seq<Step>, b: Seq<Step>)
    requires
        no_reset(a),
        no_reset(b),
    ensures
        no_reset(a + b),
{
    let all = a + b;
    assert forall|i: int| 0 <= i < all.len() implies !((#[trigger] all[i]) is ResetLog) by {
        if i < a.len() {
            assert(!(a[i] is ResetLog));
        } else {
            assert(!(b[i - a.len()] is ResetLog));
        }
    }
}

proof fn lemma_rebuild_no_reset<N, S>(
    db: Database,
    name: Seq<char>,
    si: usize,
    plan: RenewPlan,
    kernel: Kernel<N, S>,
    m: MutableSegment,
) where N: Fn(&[u32]) -> u32, S: Fn(Metric, &[u32], u32, &[u32], u32) -> u32
    requires
        db.rebuild_planned(name, si, plan, kernel, m),
    ensures
        no_reset(plan.steps@),
{
    let seg = db.collections@[plan.at as int].view.immutables@[si as int];
    lemma_renews_no_reset(
        plan.steps@,
        plan.seg,
        db.next_seg_id,
        m,
        plan.manifest@,
        seq![seg.number()],
    );
}

/// Steps one after the other.
proof fn lemma_performed_both(disk: Disk, a: Seq<Step>, b: Seq<Step>)
    ensures
        disk.performed_all(a + b) == disk.performed_all(a).performed_all(b),
{
    let all = a + b;
    lemma_performed_parts(disk, all, a.len() as int);
    assert(all.take(a.len() as int) =~= a);
    assert(all.skip(a.len() as int) =~= b);
}

/// Rebuilding one more segment keeps everything stored.
proof fn lemma_rebuilt_carries<N, S>(
    start: Database,
    db: Database,
    mid: Database,
    after: Database,
    name: Seq<char>,
    si: usize,
    plan: RenewPlan,
    kernel: Kernel<N, S>,
    m: MutableSegment,
    steps: Seq<Step>,
) where N: Fn(&[u32]) -> u32, S: Fn(Metric, &[u32], u32, &[u32], u32) -> u32
    requires
        start.apart() ==> carries(start, db, steps),
        keeps_same(start, db),
        db.rebuild_planned(name, si, plan, kernel, m),
        db.took(mid, plan.seg),
        mid.rebuild_committed(after, si, plan),
        keeps_same(mid, after),
        after.valid(),
        start.apart() ==> after.apart(),
    ensures
        keeps_same(start, after),
        after.manifest@.last_flushed_lsn == db.manifest@.last_flushed_lsn,
        start.apart() ==> carries(start, after, steps + plan.steps@),
{
    assert forall|x: Seq<char>| #[trigger] settled_kept(after.kept(x)) == settled_kept(
        start.kept(x),
    ) by {
        assert(settled_kept(after.kept(x)) == settled_kept(mid.kept(x)));
        assert(mid.kept(x) == db.kept(x));
        assert(settled_kept(db.kept(x)) == settled_kept(start.kept(x)));
    }
    if start.apart() {
        assert forall|disk: Disk, next_lsn: u64| #[trigger]
            durable(start, disk, next_lsn) implies durable(
            after,
            disk.performed_all(steps + plan.steps@),
            next_lsn,
        ) && can_follow(start, after, disk, steps + plan.steps@) by {
            let end = disk.performed_all(steps);
            assert(durable(db, end, next_lsn));
            if below(disk, start.next_seg_id) {
                let seg = db.collections@[plan.at as int].view.immutables@[si as int];
                lemma_renew_fresh(
                    end,
                    plan.steps@,
                    plan.seg,
                    db.next_seg_id,
                    m,
                    plan.manifest@,
                    seq![seg.number()],
                );
                lemma_untrimmed(end, db.next_seg_id);
                lemma_below(end, plan.steps@, after.next_seg_id);
                lemma_fresh_both(disk, steps, plan.steps@);
            }
            law_rebuild_is_durable(
                db,
                mid,
                after,
                end,
                name,
                si,
                plan,
                kernel,
                m,
                next_lsn,
            );
            lemma_performed_both(disk, steps, plan.steps@);
        }
    }
}

/// Whether a segment of a collection was rebuilt, with these steps. There are none, and
/// everything is as it was, if there is no such segment.
pub open spec fn rebuilds_one<N, S>(
    db: Database,
    after: Database,
    name: Seq<char>,
    si: usize,
    kernel: Kernel<N, S>,
    steps: Seq<Step>,
) -> bool where N: Fn(&[u32]) -> u32, S: Fn(Metric, &[u32], u32, &[u32], u32) -> u32 {
    let at = coll_at(db.collections@, name);
    if at < db.collections@.len() && si >= db.collections@[at].view.immutables@.len() {
        after == db && steps.len() == 0
    } else {
        exists|plan: RenewPlan, m: MutableSegment, mid: Database|
            #![trigger db.rebuild_planned(name, si, plan, kernel, m), db.took(mid, plan.seg)]
            db.rebuild_planned(name, si, plan, kernel, m) && db.took(mid, plan.seg)
                && mid.rebuild_committed(after, si, plan) && steps == plan.steps@
    }
}

/// Whether some segments of a collection were rebuilt, one after the other, with these steps.
pub open spec fn rebuilds<N, S>(
    start: Database,
    after: Database,
    name: Seq<char>,
    list: Seq<usize>,
    kernel: Kernel<N, S>,
    steps: Seq<Step>,
) -> bool where N: Fn(&[u32]) -> u32, S: Fn(Metric, &[u32], u32, &[u32], u32) -> u32
    decreases list.len(),
{
    if list.len() == 0 {
        after == start && steps.len() == 0
    } else {
        exists|db: Database, n: int|
            0 <= n <= steps.len() && #[trigger] rebuilds_one(
                db,
                after,
                name,
                list.last(),
                kernel,
                steps.skip(n),
            ) && rebuilds(start, db, name, list.drop_last(), kernel, steps.take(n))
    }
}

/// Whether some segments of a collection were rebuilt, one after the other, with these steps,
/// until one could not be, for that reason.
pub open spec fn rebuilds_until<N, S>(
    start: Database,
    after: Database,
    name: Seq<char>,
    list: Seq<usize>,
    kernel: Kernel<N, S>,
    steps: Seq<Step>,
    e: Error,
) -> bool where N: Fn(&[u32]) -> u32, S: Fn(Metric, &[u32], u32, &[u32], u32) -> u32 {
    exists|n: int, db: Database|
        0 <= n < list.len() && #[trigger] rebuilds(start, db, name, list.take(n), kernel, steps)
            && db.only_numbers(after) && db.turned_down(name, list[n], e)
}

impl Database {
    /// Whether a segment of a collection cannot be rebuilt, for that reason.
    pub open spec fn turned_down(&self, name: Seq<char>, si: usize, e: Error) -> bool {
        if self.next_seg_id == u64::MAX {
            e == Error::Invalid(Invalid::SegmentTooLarge)
        } else {
            self.rebuild_refused(name, si, e)
        }
    }

    /// Whether some segment of a collection cannot be rebuilt, for that reason.
    pub open spec fn renew_refused(&self, name: Seq<char>, e: Error) -> bool {
        ||| exists|si: usize| #[trigger] self.rebuild_refused(name, si, e)
        ||| self.next_seg_id == u64::MAX && e == Error::Invalid(Invalid::SegmentTooLarge)
    }

    /// Rebuilds some segments of a collection, one after the other, and adds what has to be
    /// stored.
    fn rebuild_all<N, S>(
        &mut self,
        name: &str,
        list: &Vec<usize>,
        kernel: &Kernel<N, S>,
        steps: &mut Vec<Step>,
    ) -> (r: Option<Error>) where
        N: Fn(&[u32]) -> u32,
        S: Fn(Metric, &[u32], u32, &[u32], u32) -> u32,

        requires
            old(self).valid(),
            kernel.valid(),
        ensures
            final(self).valid(),
            final(self).options == old(self).options,
            final(self).recovery_clean == old(self).recovery_clean,
            final(self).manifest@.last_flushed_lsn == old(self).manifest@.last_flushed_lsn,
            keeps_same(*old(self), *final(self)),
            old(self).apart() ==> final(self).apart(),
            old(steps)@.len() <= final(steps)@.len(),
            final(steps)@.take(old(steps)@.len() as int) == old(steps)@,
            no_reset(final(steps)@.skip(old(steps)@.len() as int)),
            old(self).apart() ==> carries(
                *old(self),
                *final(self),
                final(steps)@.skip(old(steps)@.len() as int),
            ),
            r matches Some(e) ==> final(self).renew_refused(name@, e),
            sweeps(
                listed(old(self).manifest@),
                final(steps)@.skip(old(steps)@.len() as int),
                final(self).manifest@,
            ),
            same_roster(*old(self), *final(self), 0),
            forall|more: nat| #[trigger]
                spacious(*old(self), more) ==> spacious(*final(self), more),
            enlisted(*old(self)) ==> enlisted(*final(self)),
            r is None ==> final(self).next_seg_id <= old(self).next_seg_id + list@.len(),
            spacious(*old(self), 0) && enlisted(*old(self)) && coll_at(
                old(self).collections@,
                name@,
            ) < old(self).collections@.len() && old(self).next_seg_id + list@.len() < u64::MAX
                ==> r is None,
            ({
                let added = final(steps)@.skip(old(steps)@.len() as int);
                match r {
                    None => rebuilds(*old(self), *final(self), name@, list@, *kernel, added),
                    Some(e) => rebuilds_until(
                        *old(self),
                        *final(self),
                        name@,
                        list@,
                        *kernel,
                        added,
                        e,
                    ),
                }
            }),
    {
        let ghost start = *self;
        let ghost base = steps@.len() as int;
        let ghost given = steps@;
        let mut i: usize = 0;
        proof {
            assert(given.take(base) =~= given);
            assert(given.skip(base) =~= Seq::<Step>::empty());
            assert(rebuilds(start, start, name@, list@.take(0), *kernel, given.skip(base)));
        }
        while i < list.len()
            invariant
                i <= list@.len(),
                start == *old(self),
                given == old(steps)@,
                base == given.len(),
                kernel.valid(),
                self.valid(),
                self.options == start.options,
                self.recovery_clean == start.recovery_clean,
                self.manifest@.last_flushed_lsn == start.manifest@.last_flushed_lsn,
                keeps_same(start, *self),
                start.apart() ==> self.apart(),
                base <= steps@.len(),
                steps@.take(base) == given,
                no_reset(steps@.skip(base)),
                start.apart() ==> carries(start, *self, steps@.skip(base)),
                rebuilds(start, *self, name@, list@.take(i as int), *kernel, steps@.skip(base)),
                sweeps(listed(start.manifest@), steps@.skip(base), self.manifest@),
                same_roster(start, *self, 0),
                forall|more: nat| #[trigger] spacious(start, more) ==> spacious(*self, more),
                enlisted(start) ==> enlisted(*self),
                self.next_seg_id <= start.next_seg_id + i,
            decreases list.len() - i,
        {
            proof {
                lemma_roster(start, *self, 0, name@);
            }
            if self.next_seg_id == u64::MAX {
                return Some(Error::Invalid(Invalid::SegmentTooLarge));
            }
            let ghost db = *self;
            let ghost so_far = steps@;
            match self.plan_rebuild(name, list[i], kernel) {
                Err(e) => {
                    proof {
                        assert(self.rebuild_refused(name@, list@[i as int], e));
                        if spacious(start, 0) && enlisted(start) && coll_at(
                            start.collections@,
                            name@,
                        ) < start.collections@.len() {
                            lemma_rebuild_goes(db, name@, list@[i as int], e);
                        }
                        lemma_only_numbers(start, db, *self, steps@.skip(base));
                    }
                    return Some(e);
                },
                Ok(None) => {
                    proof {
                        let none = Seq::<Step>::empty();
                        assert(*self == db);
                        assert(rebuilds_one(db, *self, name@, list@[i as int], *kernel, none));
                        assert(so_far.skip(base) + none =~= steps@.skip(base));
                        lemma_rebuilds_more(
                            start,
                            db,
                            *self,
                            name@,
                            list@,
                            i as int,
                            *kernel,
                            so_far.skip(base),
                            none,
                        );
                    }
                },
                Ok(Some(plan)) => {
                    let ghost mid = *self;
                    let ghost whole = plan;
                    let ghost m = choose|m: MutableSegment| #[trigger]
                        db.rebuild_planned(name@, list@[i as int], whole, *kernel, m);
                    proof {
                        lemma_rebuild_suits(db, name@, list@[i as int], whole, *kernel, m);
                        lemma_rebuild_no_reset(db, name@, list@[i as int], whole, *kernel, m);
                    }
                    let RenewPlan { at, seg, manifest, steps: more } = plan;
                    let mut more = more;
                    let ghost added = more@;
                    steps.append(&mut more);
                    self.commit_rebuild(list[i], RenewPlan { at, seg, manifest, steps: more });
                    proof {
                        assert(steps@ =~= so_far + added);
                        assert(steps@.take(base) =~= given);
                        assert(steps@.skip(base) =~= so_far.skip(base) + added);
                        lemma_no_reset_both(so_far.skip(base), added);
                        lemma_rebuilt_carries(
                            start,
                            db,
                            mid,
                            *self,
                            name@,
                            list@[i as int],
                            whole,
                            *kernel,
                            m,
                            so_far.skip(base),
                        );
                        assert(db.rebuild_planned(name@, list@[i as int], whole, *kernel, m));
                        lemma_rebuild_sweeps(
                            db,
                            name@,
                            list@[i as int],
                            whole,
                            *kernel,
                            m,
                            listed(db.manifest@),
                        );
                        lemma_sweeps_on(
                            listed(start.manifest@),
                            so_far.skip(base),
                            db.manifest@,
                            added,
                            self.manifest@,
                        );
                        lemma_rebuilt_same(
                            db,
                            mid,
                            *self,
                            name@,
                            list@[i as int],
                            whole,
                            *kernel,
                            m,
                        );
                        assert(db.took(mid, whole.seg));
                        assert(mid.rebuild_committed(*self, list@[i as int], whole));
                        assert(rebuilds_one(db, *self, name@, list@[i as int], *kernel, added));
                        lemma_rebuilds_more(
                            start,
                            db,
                            *self,
                            name@,
                            list@,
                            i as int,
                            *kernel,
                            so_far.skip(base),
                            added,
                        );
                    }
                },
            }
            i = i + 1;
        }
        assert(list@.take(list@.len() as int) =~= list@);
        None
    }
}

/// Some segments that were rebuilt, and one more.
pub proof fn lemma_rebuilds_more<N, S>(
    start: Database,
    db: Database,
    after: Database,
    name: Seq<char>,
    list: Seq<usize>,
    i: int,
    kernel: Kernel<N, S>,
    so_far: Seq<Step>,
    more: Seq<Step>,
) where N: Fn(&[u32]) -> u32, S: Fn(Metric, &[u32], u32, &[u32], u32) -> u32
    requires
        0 <= i < list.len(),
        rebuilds(start, db, name, list.take(i), kernel, so_far),
        rebuilds_one(db, after, name, list[i], kernel, more),
    ensures
        rebuilds(start, after, name, list.take(i + 1), kernel, so_far + more),
{
    let longer = list.take(i + 1);
    assert(longer.drop_last() =~= list.take(i));
    assert(longer.last() == list[i]);
    let steps = so_far + more;
    let n = so_far.len() as int;
    assert(steps.take(n) =~= so_far);
    assert(steps.skip(n) =~= more);
    assert(rebuilds_one(db, after, name, longer.last(), kernel, steps.skip(n)));
}

/// The number that the next record may have after the first `n`.
pub open spec fn next_number(records: Seq<RecordView>, n: int, floor: u64) -> u64 {
    if n > 0 && records[n - 1].lsn > floor {
        (records[n - 1].lsn + 1) as u64
    } else {
        (floor + 1) as u64
    }
}

/// Whether a database was made of the segments that are stored, and the records of the log that
/// is stored with them have ascending numbers.
pub open spec fn ready(db: Database, disk: Disk, records: Seq<RecordView>) -> bool {
    let floor = disk.manifest.last_flushed_lsn;
    &&& disk.log == records
    &&& floor < u64::MAX
    &&& durable(db, with_log(disk, Seq::empty()), (floor + 1) as u64)
    &&& ascending(records)
    &&& forall|i: int| 0 <= i < records.len() ==> (#[trigger] records[i]).lsn < u64::MAX
}

/// What is stored once the first `n` records were replayed, if there were only these.
spec fn stored_by(disk: Disk, records: Seq<RecordView>, n: int, steps: Seq<Step>) -> Disk {
    with_log(disk, records.take(n)).performed_all(steps)
}

/// Whether everything is stored once the first `n` records were replayed.
spec fn caught_up(
    start: Database,
    db: Database,
    records: Seq<RecordView>,
    n: int,
    steps: Seq<Step>,
) -> bool {
    forall|disk: Disk| #[trigger]
        ready(start, disk, records) ==> durable(
            db,
            stored_by(disk, records, n, steps),
            next_number(records, n, disk.manifest.last_flushed_lsn),
        ) && can_follow(start, db, disk, steps)
}

/// A record with a higher number may come later.
pub proof fn lemma_later(db: Database, disk: Disk, a: u64, b: u64)
    requires
        durable(db, disk, a),
        a <= b,
    ensures
        durable(db, disk, b),
{
    assert forall|i: int| 0 <= i < disk.log.len() implies (#[trigger] disk.log[i]).lsn < b by {
        assert(disk.log[i].lsn < a);
    }
}

/// A record that is in segments already changes nothing.
proof fn lemma_old_record(db: Database, disk: Disk, rec: RecordView, next_lsn: u64)
    requires
        durable(db, disk, next_lsn),
        rec.lsn <= disk.manifest.last_flushed_lsn,
        forall|i: int| 0 <= i < disk.log.len() ==> (#[trigger] disk.log[i]).lsn < rec.lsn,
    ensures
        durable(db, disk.appended(rec), next_lsn),
{
    let end = disk.appended(rec);
    assert(end.log.drop_last() =~= disk.log);
    assert forall|name: Seq<char>| #[trigger]
        orderly(end.base(name), end.log, end.manifest.last_flushed_lsn, name) by {
        assert(end.base(name) == disk.base(name));
        assert(orderly(disk.base(name), disk.log, disk.manifest.last_flushed_lsn, name));
    }
    assert forall|name: Seq<char>| #[trigger]
        settled_kept(end.recovered(name)) == settled_kept(db.kept(name)) by {
        assert(end.base(name) == disk.base(name));
        assert(settled_kept(disk.recovered(name)) == settled_kept(db.kept(name)));
    }
    assert forall|i: int| 0 <= i < db.collections@.len() implies is_stored(
        end,
        #[trigger] db.collections@[i],
    ) by {
        assert(is_stored(disk, db.collections@[i]));
    }
    assert forall|name: Seq<char>| #[trigger]
        db.kept(name) is Some <==> entry_at(end.manifest.entries, name)
            < end.manifest.entries.len() by {
        assert(db.kept(name) is Some <==> entry_at(disk.manifest.entries, name)
            < disk.manifest.entries.len());
    }
    assert forall|i: int| 0 <= i < end.log.len() implies (#[trigger] end.log[i]).lsn < next_lsn by {
        if i < disk.log.len() {
            assert(end.log[i] == disk.log[i]);
        }
    }
}

/// One more record in the log.
proof fn lemma_one_more(disk: Disk, records: Seq<RecordView>, n: int, steps: Seq<Step>)
    requires
        0 <= n < records.len(),
        no_reset(steps),
    ensures
        stored_by(disk, records, n, steps).appended(records[n]) == stored_by(
            disk,
            records,
            n + 1,
            steps,
        ),
        stored_by(disk, records, n, steps).log == records.take(n),
{
    lemma_log_alone(disk, steps, records.take(n));
    lemma_log_alone(disk, steps, records.take(n + 1));
    assert(records.take(n).push(records[n]) =~= records.take(n + 1));
}

/// A record that was in segments already was replayed.
proof fn lemma_caught_up_old(
    start: Database,
    db: Database,
    records: Seq<RecordView>,
    n: int,
    steps: Seq<Step>,
)
    requires
        0 <= n < records.len(),
        no_reset(steps),
        caught_up(start, db, records, n, steps),
        db.manifest@.last_flushed_lsn == start.manifest@.last_flushed_lsn,
        records[n].lsn <= db.manifest@.last_flushed_lsn,
    ensures
        caught_up(start, db, records, n + 1, steps),
{
    assert forall|disk: Disk| #[trigger] ready(start, disk, records) implies durable(
        db,
        stored_by(disk, records, n + 1, steps),
        next_number(records, n + 1, disk.manifest.last_flushed_lsn),
    ) && can_follow(start, db, disk, steps) by {
        let floor = disk.manifest.last_flushed_lsn;
        let d = stored_by(disk, records, n, steps);
        assert(durable(db, d, next_number(records, n, floor)));
        lemma_one_more(disk, records, n, steps);
        if n > 0 {
            assert(records[n - 1].lsn < records[n].lsn);
        }
        assert(d.manifest == db.manifest@);
        assert(start.manifest@ == disk.manifest);
        assert forall|i: int| 0 <= i < d.log.len() implies (#[trigger] d.log[i]).lsn
            < records[n].lsn by {
            assert(d.log[i] == records[i]);
        }
        lemma_old_record(db, d, records[n], next_number(records, n, floor));
    }
}

/// A record was replayed, and what it led to was stored.
proof fn lemma_caught_up_new<N, S>(
    start: Database,
    db: Database,
    mid: Database,
    after: Database,
    records: Seq<RecordView>,
    rec: WalRecord,
    n: int,
    steps: Seq<Step>,
    a: Applied,
    more: Seq<Step>,
    kernel: Kernel<N, S>,
) where N: Fn(&[u32]) -> u32, S: Fn(Metric, &[u32], u32, &[u32], u32) -> u32
    requires
        0 <= n < records.len(),
        rec@ == records[n],
        no_reset(steps),
        caught_up(start, db, records, n, steps),
        db.manifest@.last_flushed_lsn == start.manifest@.last_flushed_lsn,
        rec.lsn > db.manifest@.last_flushed_lsn,
        db.applies(mid, rec.op, kernel, a),
        mid.valid(),
        db.rest_same(mid),
        db.follows(mid, rec.op@),
        mid.apart() ==> carries(mid, after, more),
    ensures
        caught_up(start, after, records, n + 1, steps + a.steps@ + more),
{
    assert forall|disk: Disk| #[trigger] ready(start, disk, records) implies durable(
        after,
        stored_by(disk, records, n + 1, steps + a.steps@ + more),
        next_number(records, n + 1, disk.manifest.last_flushed_lsn),
    ) && can_follow(start, after, disk, steps + a.steps@ + more) by {
        let floor = disk.manifest.last_flushed_lsn;
        let d = stored_by(disk, records, n, steps);
        assert(durable(db, d, next_number(records, n, floor)));
        assert(start.manifest@ == disk.manifest);
        lemma_one_more(disk, records, n, steps);
        if n > 0 {
            assert(records[n - 1].lsn < records[n].lsn);
        }
        assert(records[n].lsn < u64::MAX);
        lemma_later(db, d, next_number(records, n, floor), rec.lsn);
        assert(d.manifest == db.manifest@);
        law_write_survives(
            db,
            mid,
            d,
            rec.lsn,
            rec.op,
            rec@,
            kernel,
            a,
            a.steps@.len() as int,
        );
        let e = d.appended(rec@);
        assert(durable(mid, e.performed_all(a.steps@), (rec.lsn + 1) as u64));
        assert(durable(
            after,
            e.performed_all(a.steps@).performed_all(more),
            (rec.lsn + 1) as u64,
        ));
        let logged = with_log(disk, records.take(n + 1));
        lemma_performed_both(logged, steps, a.steps@);
        lemma_performed_both(logged, steps + a.steps@, more);
        if below(disk, start.next_seg_id) {
            let now = disk.performed_all(steps);
            lemma_applies_no_reset(db, mid, rec.op, kernel, a);
            lemma_same_segs(disk, with_log(disk, records.take(n)), steps);
            assert(now.segs == d.segs);
            lemma_write_fresh(db, mid, rec.op, kernel, a, d, now, rec.lsn);
            lemma_below(now, a.steps@, db.next_seg_id);
            lemma_fresh_both(disk, steps, a.steps@);
            lemma_performed_both(disk, steps, a.steps@);
            let then = e.performed_all(a.steps@);
            lemma_same_segs(now, e, a.steps@);
            assert(can_follow(mid, after, then, more));
            lemma_same_fresh(now.performed_all(a.steps@), then, more);
            lemma_fresh_both(disk, steps + a.steps@, more);
            lemma_performed_both(disk, steps + a.steps@, more);
        }
    }
}

/// What comes of one more record.
proof fn lemma_replays_more(
    k: Option<Kept>,
    now: Option<Kept>,
    after: Option<Kept>,
    last: Option<Kept>,
    records: Seq<RecordView>,
    n: int,
    floor: u64,
    name: Seq<char>,
)
    requires
        0 <= n < records.len(),
        settled_kept(now) == settled_kept(replayed(k, records.take(n), floor, name)),
        after == replayed(now, seq![records[n]], floor, name),
        settled_kept(last) == settled_kept(after),
    ensures
        settled_kept(last) == settled_kept(replayed(k, records.take(n + 1), floor, name)),
{
    let one = seq![records[n]];
    assert(records.take(n + 1).drop_last() =~= records.take(n));
    assert(one.drop_last() =~= Seq::<RecordView>::empty());
    reveal_with_fuel(replayed, 2);
    let before = replayed(k, records.take(n), floor, name);
    assert(records.take(n + 1).last() == records[n]);
    law_replay_settles(now, before, one, floor, name);
    assert(replayed(before, one, floor, name) == replayed(
        k,
        records.take(n + 1),
        floor,
        name,
    ));
}

/// What is stored with the records that are needed is stored with all of them.
proof fn lemma_all_records(db: Database, disk: Disk, records: Seq<RecordView>, a: u64, b: u64)
    requires
        ({
            let floor = disk.manifest.last_flushed_lsn;
            durable(
                db,
                with_log(disk, needed(records, floor, records.len() as int)),
                a,
            )
        }),
        a <= b,
        ascending(records),
        forall|i: int| 0 <= i < records.len() ==> (#[trigger] records[i]).lsn < b,
    ensures
        durable(db, with_log(disk, records), b),
{
    let floor = disk.manifest.last_flushed_lsn;
    let some = needed(records, floor, records.len() as int);
    let few = with_log(disk, some);
    let end = with_log(disk, records);
    assert forall|name: Seq<char>| #[trigger]
        orderly(end.base(name), end.log, end.manifest.last_flushed_lsn, name) by {
        assert(end.base(name) == few.base(name));
        assert(orderly(few.base(name), few.log, floor, name));
        law_overridden_records_can_be_skipped(few.base(name), records, floor, name);
    }
    assert forall|name: Seq<char>| #[trigger]
        settled_kept(end.recovered(name)) == settled_kept(db.kept(name)) by {
        assert(end.base(name) == few.base(name));
        assert(settled_kept(few.recovered(name)) == settled_kept(db.kept(name)));
        law_overridden_records_can_be_skipped(few.base(name), records, floor, name);
    }
    assert forall|i: int| 0 <= i < db.collections@.len() implies is_stored(
        end,
        #[trigger] db.collections@[i],
    ) by {
        assert(is_stored(few, db.collections@[i]));
    }
    assert forall|name: Seq<char>| #[trigger]
        db.kept(name) is Some <==> entry_at(end.manifest.entries, name)
            < end.manifest.entries.len() by {
        assert(db.kept(name) is Some <==> entry_at(few.manifest.entries, name)
            < few.manifest.entries.len());
    }
}

/// In a log that can be replayed, a record whose collection no later one drops finds its
/// collection.
proof fn lemma_found(k: Option<Kept>, records: Seq<RecordView>, floor: u64, name: Seq<char>, n: int)
    requires
        0 <= n < records.len(),
        orderly(k, records, floor, name),
        records[n].lsn > floor,
        subject(records[n].op) == name,
        needs_collection(records[n].op),
        forall|j: int|
            n < j < records.len() ==> !((#[trigger] records[j]).lsn > floor && records[j].op is Drop
                && subject(records[j].op) == name),
    ensures
        replayed(k, records.take(n), floor, name) is Some,
    decreases records.len(),
{
    let rest = records.drop_last();
    if n == records.len() - 1 {
        assert(rest =~= records.take(n));
    } else {
        assert(!(records[records.len() - 1].op is Drop && records[records.len() - 1].lsn > floor
            && subject(records[records.len() - 1].op) == name));
        lemma_found(k, rest, floor, name, n);
        assert(rest.take(n) =~= records.take(n));
    }
}

/// Whether a record behind place `i` drops the collection that record `i` is about.
fn is_overridden(records: &Vec<WalRecord>, floor: u64, i: usize) -> (r: bool)
    requires
        i < records@.len(),
    ensures
        r == overridden(record_views(records@), floor, i as int),
{
    let ghost views = record_views(records@);
    let name = subject_of(&records[i].op);
    let len: usize = records.len();
    let mut j: usize = i + 1;
    while j < len
        invariant
            i < j <= len,
            len == records@.len(),
            views == record_views(records@),
            name@ == subject(views[i as int].op),
            forall|x: int|
                i < x < j ==> !((#[trigger] views[x]).lsn > floor && views[x].op is Drop && subject(
                    views[x].op,
                ) == name@),
        decreases len - j,
    {
        assert(views[j as int] == records@[j as int]@);
        if records[j].lsn > floor {
            if let Op::DropCollection { name: other } = &records[j].op {
                if is_same(other.as_str(), name) {
                    return true;
                }
            }
        }
        j = j + 1;
    }
    false
}

/// Whether all records are in segments already.
pub open spec fn all_old(records: Seq<RecordView>, floor: u64) -> bool {
    forall|i: int| 0 <= i < records.len() ==> (#[trigger] records[i]).lsn <= floor
}

/// Whether nothing stands in the way of replaying a log: every record finds its collection and
/// space for its points, every collection is in the manifest, and numbers are left for the
/// segments that are rebuilt, where no collection has more than `segs`.
pub open spec fn can_recover(db: Database, records: Seq<RecordView>, segs: nat) -> bool {
    let more = points_from(records, 0);
    &&& db.apart()
    &&& enlisted(db)
    &&& can_replay(db, records, db.manifest@.last_flushed_lsn)
    &&& spacious(db, more)
    &&& all_hold(records, more)
    &&& segs_within(db, segs)
    &&& db.next_seg_id + records.len() * segs < u64::MAX
}

/// Whether nothing stands in the way of the records from place `i` on.
spec fn goes_well(db: Database, records: Seq<RecordView>, i: int, segs: nat) -> bool {
    &&& enlisted(db)
    &&& spacious(db, points_from(records, i))
    &&& segs_within(db, segs)
    &&& db.next_seg_id + (records.len() - i) * segs < u64::MAX
}

/// Nothing stands in the way of the records behind one that is passed over.
proof fn lemma_goes_past(db: Database, records: Seq<RecordView>, i: int, segs: nat)
    requires
        0 <= i < records.len(),
        goes_well(db, records, i, segs),
    ensures
        goes_well(db, records, i + 1, segs),
{
    lemma_spacious_less(db, points_from(records, i), points_from(records, i + 1));
    lemma_one_less(records.len() - i, segs);
}

proof fn lemma_one_less(n: int, segs: nat)
    requires
        n > 0,
    ensures
        n * segs == (n - 1) * segs + segs,
        (n - 1) * segs >= 0,
{
    assert(n * segs == (n - 1) * segs + segs) by (nonlinear_arith);
    assert((n - 1) * segs >= 0) by (nonlinear_arith)
        requires
            n >= 1,
            segs >= 0,
    ;
}

/// Where nothing stands in the way, replaying does not stop at a record that finds its
/// collection.
proof fn lemma_no_stop(
    db: Database,
    records: Seq<RecordView>,
    i: int,
    segs: nat,
    rec: WalRecord,
    e: Error,
)
    requires
        0 <= i < records.len(),
        records[i] == rec@,
        goes_well(db, records, i, segs),
        stops_at(db, rec, e),
    ensures
        is_missing(e),
{
    let at = coll_at(db.collections@, subject(rec.op@));
    lemma_coll_from(db.collections@, subject(rec.op@), 0);
    if at < db.collections@.len() {
        assert(has_space(db.collections@[at], points_from(records, i)));
        assert(points_in(rec.op@) <= points_from(records, i));
    }
}

/// Nothing stands in the way of rebuilding segments after a record was applied.
proof fn lemma_goes_on<N, S>(
    db: Database,
    mid: Database,
    records: Seq<RecordView>,
    i: int,
    segs: nat,
    op: Op,
    kernel: Kernel<N, S>,
    a: Applied,
) where N: Fn(&[u32]) -> u32, S: Fn(Metric, &[u32], u32, &[u32], u32) -> u32
    requires
        0 <= i < records.len(),
        records[i].op == op@,
        db.valid(),
        db.applies(mid, op, kernel, a),
        db.rest_same(mid),
        goes_well(db, records, i, segs),
        all_hold(records, points_from(records, 0)),
    ensures
        enlisted(mid),
        spacious(mid, points_from(records, i + 1)),
        spacious(mid, 0),
        segs_within(mid, segs),
        a.rebuild@.len() <= segs,
        mid.next_seg_id + a.rebuild@.len() + (records.len() - i - 1) * segs < u64::MAX,
        (records.len() - i - 1) * segs >= 0,
        op is Delete ==> coll_at(mid.collections@, subject(op@)) < mid.collections@.len(),
{
    let more = points_from(records, i + 1);
    assert(can_hold(records[i].op, points_from(records, 0)));
    lemma_points_from(records, i + 1);
    lemma_holds_less(op@, points_from(records, 0), more);
    lemma_space_after(db, mid, op, kernel, a, more);
    lemma_spacious_less(mid, more, 0);
    lemma_enlisted_after(db, mid, op, kernel, a, segs);
    lemma_worn_few(db, mid, op, kernel, a);
    lemma_one_less(records.len() - i, segs);
    lemma_coll_from(db.collections@, subject(op@), 0);
    if op is Delete {
        let c = coll_at(db.collections@, subject(op@));
        assert(mid.collections@[c].name == db.collections@[c].name);
        lemma_coll_from(mid.collections@, subject(op@), 0);
    }
    let at = coll_at(db.collections@, subject(op@));
    if at < db.collections@.len() {
        assert(db.collections@[at].view.immutables@.len() <= segs);
    }
}

/// Nothing stands in the way of the next record once segments were rebuilt.
proof fn lemma_goes_through(
    mid: Database,
    after: Database,
    records: Seq<RecordView>,
    i: int,
    segs: nat,
)
    requires
        enlisted(after),
        spacious(after, points_from(records, i + 1)),
        same_roster(mid, after, 0),
        segs_within(mid, segs),
        after.next_seg_id + (records.len() - i - 1) * segs < u64::MAX,
    ensures
        goes_well(after, records, i + 1, segs),
{
    assert forall|x: int| 0 <= x < after.collections@.len() implies (
    #[trigger] after.collections@[x]).view.immutables@.len() <= segs by {
        assert(mid.collections@[x].view.immutables@.len() <= segs);
    }
}

/// Why replaying stopped: a record could not be applied, or, after one that deletes points,
/// a segment could not be rebuilt.
pub open spec fn stopped_at(db: Database, records: Seq<WalRecord>, n: int, e: Error) -> bool {
    ||| n < records.len() && records[n].lsn > db.manifest.last_flushed_lsn && stops_at(
        db,
        records[n],
        e,
    )
    ||| n > 0 && records[n - 1].lsn > db.manifest.last_flushed_lsn && records[n - 1].op is Delete
        && db.renew_refused(subject(records[n - 1].op@), e)
}

impl Database {
    /// Replays a log: applies the records that are not in segments yet, one after the other, but
    /// for those of a collection that a later record drops. Where a record cannot be applied, it
    /// stops there; no record is without its collection in a log that can be replayed. What has
    /// to be stored is given in order; once it is, everything that the database keeps is stored,
    /// and opening it again gives it back.
    #[verifier::rlimit(40)]
    pub fn recover<N, S>(&mut self, records: &Vec<WalRecord>, kernel: &Kernel<N, S>) -> (r:
        Recovered) where N: Fn(&[u32]) -> u32, S: Fn(Metric, &[u32], u32, &[u32], u32) -> u32
        requires
            old(self).valid(),
            kernel.valid(),
        ensures
            final(self).valid(),
            final(self).options == old(self).options,
            final(self).recovery_clean == old(self).recovery_clean,
            final(self).manifest@.last_flushed_lsn == old(self).manifest@.last_flushed_lsn,
            r.replayed <= records@.len(),
            match r.stopped {
                None => r.replayed == records@.len(),
                Some(e) => stopped_at(*final(self), records@, r.replayed as int, e),
            },
            old(self).apart() ==> final(self).apart() && forall|name: Seq<char>| #[trigger]
                settled_kept(final(self).kept(name)) == settled_kept(
                    replayed(
                        old(self).kept(name),
                        needed(
                            record_views(records@),
                            old(self).manifest@.last_flushed_lsn,
                            r.replayed as int,
                        ),
                        old(self).manifest@.last_flushed_lsn,
                        name,
                    ),
                ),
            old(self).apart() && r.stopped is None ==> forall|name: Seq<char>| #[trigger]
                settled_kept(final(self).kept(name)) == settled_kept(
                    replayed(
                        old(self).kept(name),
                        record_views(records@),
                        old(self).manifest@.last_flushed_lsn,
                        name,
                    ),
                ),
            old(self).apart() && can_replay(
                *old(self),
                record_views(records@),
                old(self).manifest@.last_flushed_lsn,
            ) ==> (r.stopped matches Some(e) ==> !is_missing(e)),
            r.stopped is None ==> forall|disk: Disk| #[trigger]
                ready(*old(self), disk, record_views(records@)) ==> durable(
                    *final(self),
                    disk.performed_all(r.steps@),
                    next_number(
                        record_views(records@),
                        records@.len() as int,
                        disk.manifest.last_flushed_lsn,
                    ),
                ) && can_follow(*old(self), *final(self), disk, r.steps@) && sweeps(
                    listed(old(self).manifest@),
                    r.steps@,
                    final(self).manifest@,
                ),
            all_old(record_views(records@), old(self).manifest@.last_flushed_lsn)
                ==> r.steps@.len() == 0 && *final(self) == *old(self),
            forall|segs: nat| #[trigger]
                can_recover(*old(self), record_views(records@), segs) ==> r.stopped is None,
            keeps_norms(*old(self), *kernel) ==> keeps_norms(*final(self), *kernel),
    {
        let ghost start = *self;
        let ghost views = record_views(records@);
        let ghost floor = self.manifest@.last_flushed_lsn;
        let mut steps: Vec<Step> = Vec::new();
        let mut i: usize = 0;
        let ghost thin = needed(views, floor, views.len() as int);
        let ghost mut n: int = 0;
        let ghost sure = exists|segs: nat| #[trigger] can_recover(start, views, segs);
        let ghost segs = choose|segs: nat| #[trigger] can_recover(start, views, segs);
        proof {
            assert(thin.take(0) =~= Seq::<RecordView>::empty());
            assert(views.len() - 0 == views.len());
            assert forall|disk: Disk| #[trigger] ready(start, disk, thin) implies durable(
                start,
                stored_by(disk, thin, 0, steps@),
                next_number(thin, 0, disk.manifest.last_flushed_lsn),
            ) && can_follow(start, start, disk, steps@) by {
                assert(with_log(disk, thin.take(0)) == with_log(disk, Seq::empty()));
            }
        }
        while i < records.len()
            invariant
                i <= records@.len(),
                start == *old(self),
                views == record_views(records@),
                floor == start.manifest@.last_flushed_lsn,
                kernel.valid(),
                self.valid(),
                self.options == start.options,
                self.recovery_clean == start.recovery_clean,
                self.manifest@.last_flushed_lsn == floor,
                thin == needed(views, floor, views.len() as int),
                n == needed(views, floor, i as int).len(),
                thin.take(n) == needed(views, floor, i as int),
                start.apart() ==> self.apart() && forall|name: Seq<char>| #[trigger]
                    settled_kept(self.kept(name)) == settled_kept(
                        replayed(start.kept(name), thin.take(n), floor, name),
                    ),
                no_reset(steps@),
                all_old(views, floor) ==> steps@.len() == 0 && *self == start,
                keeps_norms(start, *kernel) ==> keeps_norms(*self, *kernel),
                caught_up(start, *self, thin, n, steps@),
                (exists|disk: Disk| #[trigger] ready(start, disk, thin)) ==> sweeps(
                    listed(start.manifest@),
                    steps@,
                    self.manifest@,
                ),
                sure == (exists|segs: nat| #[trigger] can_recover(start, views, segs)),
                sure ==> can_recover(start, views, segs) && goes_well(*self, views, i as int, segs),
            decreases records.len() - i,
        {
            let ghost db = *self;
            let ghost so_far = steps@;
            let rec = &records[i];
            assert(rec@ == views[i as int]);
            proof {
                lemma_needed_parts(views, floor, i + 1, views.len() as int);
            }
            if is_overridden(records, self.manifest.last_flushed_lsn, i) {
                proof {
                    if sure {
                        lemma_goes_past(*self, views, i as int, segs);
                    }
                }
                i = i + 1;
                continue ;
            }
            assert(thin[n] == rec@) by {
                assert(thin.take(n + 1)[n] == needed(views, floor, i + 1)[n]);
            }
            match self.replay_record(rec, kernel) {
                Err(e) => {
                    proof {
                        if start.apart() && can_replay(start, views, floor) {
                            lemma_stop(start, db, views, floor, i as int, *rec, e);
                            if sure {
                                lemma_no_stop(db, views, i as int, segs, *rec, e);
                            }
                        }
                    }
                    return Recovered { steps, replayed: i, stopped: Some(e) };
                },
                Ok(None) => {
                    proof {
                        lemma_caught_up_old(start, db, thin, n, steps@);
                        if sure {
                            lemma_goes_past(*self, views, i as int, segs);
                        }
                        if start.apart() {
                            assert forall|name: Seq<char>| #[trigger]
                                settled_kept(self.kept(name)) == settled_kept(
                                    replayed(start.kept(name), thin.take(n + 1), floor, name),
                                ) by {
                                lemma_replays_more(
                                    start.kept(name),
                                    db.kept(name),
                                    self.kept(name),
                                    self.kept(name),
                                    thin,
                                    n,
                                    floor,
                                    name,
                                );
                            }
                        }
                    }
                },
                Ok(Some(a)) => {
                    let ghost mid = *self;
                    let ghost whole = a;
                    proof {
                        lemma_applies_no_reset(db, mid, rec.op, *kernel, whole);
                        lemma_no_reset_both(so_far, whole.steps@);
                        if sure {
                            lemma_goes_on(db, mid, views, i as int, segs, rec.op, *kernel, whole);
                        }
                    }
                    let Applied { count, need_flush, steps: more, rebuild } = a;
                    let mut more = more;
                    steps.append(&mut more);
                    let ghost applied = steps@;
                    let failed: Option<Error> = match &rec.op {
                        Op::Delete { collection, .. } => self.rebuild_all(
                            collection.as_str(),
                            &rebuild,
                            kernel,
                            &mut steps,
                        ),
                        _ => None,
                    };
                    proof {
                        if sure {
                            lemma_goes_through(mid, *self, views, i as int, segs);
                        }
                        let added = steps@.skip(applied.len() as int);
                        assert(steps@ =~= applied + added);
                        if keeps_norms(start, *kernel) {
                            law_writing_keeps_norms(db, mid, rec.op, *kernel, whole);
                            if rec.op is Delete {
                                let name = rec.op->Delete_collection@;
                                if failed is None {
                                    law_rebuilding_keeps_norms(
                                        mid,
                                        *self,
                                        name,
                                        rebuild@,
                                        *kernel,
                                        added,
                                    );
                                } else {
                                    lemma_until_keeps_norms(
                                        mid,
                                        *self,
                                        name,
                                        rebuild@,
                                        *kernel,
                                        added,
                                        failed->0,
                                    );
                                }
                            }
                        }
                        if !(rec.op is Delete) {
                            assert(added =~= Seq::<Step>::empty());
                            lemma_stays_put(mid);
                        }
                        lemma_no_reset_both(applied, added);
                        lemma_follows(db, mid, rec@, floor);
                        lemma_caught_up_new(
                            start,
                            db,
                            mid,
                            *self,
                            thin,
                            *rec,
                            n,
                            so_far,
                            whole,
                            added,
                            *kernel,
                        );
                        assert(so_far + whole.steps@ + added =~= steps@);
                        if exists|disk: Disk| #[trigger] ready(start, disk, thin) {
                            let disk = choose|disk: Disk| #[trigger] ready(start, disk, thin);
                            assert(durable(
                                db,
                                stored_by(disk, thin, n, so_far),
                                next_number(thin, n, disk.manifest.last_flushed_lsn),
                            ));
                            lemma_write_sweeps(
                                db,
                                mid,
                                rec.op,
                                *kernel,
                                whole,
                                listed(db.manifest@),
                            );
                            lemma_sweeps_on(
                                listed(start.manifest@),
                                so_far,
                                db.manifest@,
                                whole.steps@,
                                mid.manifest@,
                            );
                            lemma_sweeps_on(
                                listed(start.manifest@),
                                so_far + whole.steps@,
                                mid.manifest@,
                                added,
                                self.manifest@,
                            );
                        }
                        if start.apart() {
                            assert forall|name: Seq<char>| #[trigger]
                                settled_kept(self.kept(name)) == settled_kept(
                                    replayed(start.kept(name), thin.take(n + 1), floor, name),
                                ) by {
                                assert(settled_kept(self.kept(name)) == settled_kept(
                                    mid.kept(name),
                                ));
                                lemma_replays_more(
                                    start.kept(name),
                                    db.kept(name),
                                    mid.kept(name),
                                    self.kept(name),
                                    thin,
                                    n,
                                    floor,
                                    name,
                                );
                            }
                        }
                    }
                    if let Some(e) = failed {
                        assert(self.renew_refused(subject(rec.op@), e));
                        return Recovered { steps, replayed: i + 1, stopped: Some(e) };
                    }
                },
            }
            proof {
                n = n + 1;
            }
            i = i + 1;
        }
        proof {
            assert(thin.take(n) =~= thin);
            assert forall|name: Seq<char>|
                start.apart() implies #[trigger] settled_kept(self.kept(name)) == settled_kept(
                replayed(start.kept(name), views, floor, name),
            ) by {
                law_overridden_records_can_be_skipped(start.kept(name), views, floor, name);
            }
            lemma_caught_up_all(start, *self, views, floor, steps@);
            assert forall|disk: Disk| #[trigger] ready(start, disk, views) implies sweeps(
                listed(start.manifest@),
                steps@,
                self.manifest@,
            ) by {
                lemma_ready_thin(start, disk, views);
            }
        }
        Recovered { steps, replayed: i, stopped: None }
    }
}

/// What is ready for all records is ready for those that are needed.
proof fn lemma_ready_thin(start: Database, disk: Disk, views: Seq<RecordView>)
    requires
        ready(start, disk, views),
    ensures
        ({
            let floor = start.manifest@.last_flushed_lsn;
            let thin = needed(views, floor, views.len() as int);
            ready(start, with_log(disk, thin), thin)
        }),
{
    let floor = start.manifest@.last_flushed_lsn;
    let thin = needed(views, floor, views.len() as int);
    let few = with_log(disk, thin);
    assert(start.manifest@ == disk.manifest);
    assert(with_log(few, Seq::empty()) == with_log(disk, Seq::empty()));
    lemma_needed_order(views, floor, views.len() as int);
    assert(views.take(views.len() as int) =~= views);
    assert forall|x: int| 0 <= x < thin.len() implies (#[trigger] thin[x]).lsn < u64::MAX by {
        assert(views.contains(thin[x]));
        let y = choose|y: int| 0 <= y < views.len() && views[y] == thin[x];
        assert(views[y].lsn < u64::MAX);
    }
}

/// Once all records that are needed were replayed, everything is stored.
proof fn lemma_caught_up_all(
    start: Database,
    db: Database,
    views: Seq<RecordView>,
    floor: u64,
    steps: Seq<Step>,
)
    requires
        no_reset(steps),
        floor == start.manifest@.last_flushed_lsn,
        db.manifest@.last_flushed_lsn == floor,
        ({
            let thin = needed(views, floor, views.len() as int);
            caught_up(start, db, thin, thin.len() as int, steps)
        }),
    ensures
        forall|disk: Disk| #[trigger]
            ready(start, disk, views) ==> durable(
                db,
                disk.performed_all(steps),
                next_number(views, views.len() as int, disk.manifest.last_flushed_lsn),
            ) && can_follow(start, db, disk, steps),
{
    let thin = needed(views, floor, views.len() as int);
    let n = thin.len() as int;
    assert(thin.take(n) =~= thin);
    assert forall|disk: Disk| #[trigger] ready(start, disk, views) implies durable(
        db,
        disk.performed_all(steps),
        next_number(views, views.len() as int, disk.manifest.last_flushed_lsn),
    ) && can_follow(start, db, disk, steps) by {
        let few = with_log(disk, thin);
        assert(start.manifest@ == disk.manifest);
        lemma_needed_order(views, floor, views.len() as int);
        assert(views.take(views.len() as int) =~= views);
        lemma_ready_thin(start, disk, views);
        assert(stored_by(few, thin, n, steps) == few.performed_all(steps)) by {
            assert(with_log(few, thin) == few);
        }
        let a = next_number(thin, n, floor);
        let b = next_number(views, views.len() as int, floor);
        assert(durable(db, few.performed_all(steps), a));
        lemma_log_alone(disk, steps, thin);
        lemma_log_alone(disk, steps, views);
        assert(with_log(disk, views) == disk);
        assert(a <= b) by {
            if n > 0 {
                assert(views.contains(thin[n - 1]));
                let y = choose|y: int| 0 <= y < views.len() && views[y] == thin[n - 1];
                if y < views.len() - 1 {
                    assert(views[y].lsn < views[views.len() - 1].lsn);
                }
                assert(views[views.len() - 1].lsn < u64::MAX);
            }
        }
        assert forall|x: int| 0 <= x < views.len() implies (#[trigger] views[x]).lsn < b by {
            assert(views[views.len() - 1].lsn < u64::MAX);
            if x < views.len() - 1 {
                assert(views[x].lsn < views[views.len() - 1].lsn);
            }
        }
        let end = disk.performed_all(steps);
        assert(end.manifest.last_flushed_lsn == floor);
        assert(can_follow(start, db, few, steps));
        lemma_same_fresh(disk, few, steps);
        lemma_all_records(db, end, views, a, b);
        assert(with_log(end, views) == end);
    }
}

/// Whether an error says that a record has no collection.
pub open spec fn is_missing(e: Error) -> bool {
    e matches Error::Invalid(Invalid::ReplayMissing { .. })
}

/// Whether every record finds its collection, but for those of a collection that a later record
/// drops.
pub open spec fn can_replay(db: Database, records: Seq<RecordView>, floor: u64) -> bool {
    forall|name: Seq<char>| #[trigger] orderly(db.kept(name), records, floor, name)
}

/// In a log that can be replayed, no record is without its collection.
proof fn lemma_stop(
    start: Database,
    db: Database,
    views: Seq<RecordView>,
    floor: u64,
    i: int,
    rec: WalRecord,
    e: Error,
)
    requires
        can_replay(start, views, floor),
        0 <= i < views.len(),
        views[i] == rec@,
        rec.lsn > floor,
        !overridden(views, floor, i),
        stops_at(db, rec, e),
        forall|name: Seq<char>| #[trigger]
            settled_kept(db.kept(name)) == settled_kept(
                replayed(start.kept(name), needed(views, floor, i), floor, name),
            ),
    ensures
        !is_missing(e),
{
    let name = subject(rec.op@);
    let thin = needed(views, floor, views.len() as int);
    let n = needed(views, floor, i).len() as int;
    assert(orderly(start.kept(name), views, floor, name));
    law_overridden_records_can_be_skipped(start.kept(name), views, floor, name);
    lemma_needed_last(views, floor, i);
    lemma_needed_parts(views, floor, i + 1, views.len() as int);
    assert(thin.take(n + 1)[n] == needed(views, floor, i + 1)[n]);
    lemma_needed_parts(views, floor, i, views.len() as int);
    if is_missing(e) {
        lemma_not_missing(db, rec, e);
        lemma_found(start.kept(name), thin, floor, name, n);
        assert(settled_kept(db.kept(name)) == settled_kept(
            replayed(start.kept(name), needed(views, floor, i), floor, name),
        ));
    }
}

/// A record that is said to have no collection needs one that is not there.
proof fn lemma_not_missing(db: Database, rec: WalRecord, e: Error)
    requires
        stops_at(db, rec, e),
        is_missing(e),
    ensures
        needs_collection(rec.op@),
        db.kept(subject(rec.op@)) is None,
{
    lemma_kept_none(db.collections@, subject(rec.op@));
    lemma_coll_from(db.collections@, subject(rec.op@), 0);
}

/// No record that is needed behind place `i` drops the collection of record `i`.
proof fn lemma_needed_last(records: Seq<RecordView>, floor: u64, i: int)
    requires
        0 <= i < records.len(),
        !overridden(records, floor, i),
    ensures
        ({
            let thin = needed(records, floor, records.len() as int);
            let n = needed(records, floor, i).len() as int;
            &&& n < thin.len()
            &&& forall|j: int|
                n < j < thin.len() ==> !((#[trigger] thin[j]).lsn > floor && thin[j].op is Drop
                    && subject(thin[j].op) == subject(records[i].op))
        }),
{
    let thin = needed(records, floor, records.len() as int);
    let n = needed(records, floor, i).len() as int;
    lemma_needed_parts(records, floor, i + 1, records.len() as int);
    assert forall|j: int| n < j < thin.len() implies !((#[trigger] thin[j]).lsn > floor
        && thin[j].op is Drop && subject(thin[j].op) == subject(records[i].op)) by {
        lemma_needed_from(records, floor, i + 1, records.len() as int, j);
    }
}

/// A record that is needed and not among the first is one of the others.
proof fn lemma_needed_from(records: Seq<RecordView>, floor: u64, n: int, m: int, j: int)
    requires
        0 <= n <= m <= records.len(),
        needed(records, floor, n).len() <= j < needed(records, floor, m).len(),
    ensures
        exists|x: int| n <= x < m && #[trigger] records[x] == needed(records, floor, m)[j],
    decreases m - n,
{
    if m > n {
        let rest = needed(records, floor, m - 1);
        if j < rest.len() {
            lemma_needed_from(records, floor, n, m - 1, j);
        } else {
            assert(records[m - 1] == needed(records, floor, m)[j]);
        }
    }
}

/// Without steps, everything stays as it is.
proof fn lemma_stays_put(db: Database)
    ensures
        carries(db, db, Seq::<Step>::empty()),
        keeps_same(db, db),
{
    assert forall|disk: Disk, next_lsn: u64| #[trigger] durable(db, disk, next_lsn) implies durable(
        db,
        disk.performed_all(Seq::<Step>::empty()),
        next_lsn,
    ) && can_follow(db, db, disk, Seq::<Step>::empty()) by {
        assert(disk.performed_all(Seq::<Step>::empty()) == disk);
    }
}

/// Replaying one record that is not in segments yet is applying it.
proof fn lemma_follows(db: Database, mid: Database, rec: RecordView, floor: u64)
    requires
        rec.lsn > floor,
        db.apart() ==> mid.apart() && forall|name: Seq<char>| #[trigger]
            mid.kept(name) == replayed(db.kept(name), seq![rec], floor, name),
    ensures
        db.follows(mid, rec.op),
{
    let one = seq![rec];
    assert(one.drop_last() =~= Seq::<RecordView>::empty());
    reveal_with_fuel(replayed, 2);
    if db.apart() {
        assert forall|name: Seq<char>| #[trigger] mid.kept(name) == outcome(
            db.kept(name),
            rec.op,
            name,
        ) by {
            assert(mid.kept(name) == replayed(db.kept(name), one, floor, name));
        }
    }
}

} // verus!
