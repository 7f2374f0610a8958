//! Work that is stored in several steps: a write with what follows from it, a flush, a
//! compaction.
//!
//! A [`Job`] says which step has to be performed next. Once it was performed,
//! [`Database::proceed`] goes on with the job. Whenever the work is cut short, opening the
//! database gives back what it keeps.

use vstd::prelude::*;

use crate::engine::apply::Applied;
use crate::engine::database::{coll_at, lemma_coll_from, Database, Step};
use crate::engine::disk::{settled_op, Disk};
use crate::engine::durable::{durable, gives_back, has_seg, seg_number};
use crate::engine::outcome::{settled_kept, subject, subject_of};
use crate::engine::outlast::{law_flush_is_durable, law_flush_survives};
use crate::engine::plan::{keeps_same, lemma_flush_suits, FlushPlan};
use crate::engine::merge::{live_rows, no_rows, renormed};
use crate::engine::size::{
    lemma_chronicle_fewer, lemma_closes_names, lemma_put_fewer, lemma_rebuild_rows,
};
use crate::engine::renew::{lemma_no_points, RenewPlan};
use crate::engine::replace::{
    law_compact_is_durable, law_compact_survives, law_rebuild_is_durable, law_rebuild_survives,
};
use crate::engine::survive::law_write_survives;
use crate::error::{Error, Invalid};
use crate::id::IdView;
use crate::kernel::{Kernel, Metric};
use crate::manifest::entry_at;
use crate::segment::immutable::settled_live;
use crate::segment::mutable::MutableSegment;
use crate::segment::{Entry, Row};
use crate::storage::{same_start, StorageBackend};
use crate::wal::{Codec, Op, OpView, RecordView, Wal, WalRecord, MAX_FRAME};

verus! {

/// What a job is about to store.
pub enum Stage {
    /// What a write changed.
    Write,
    /// A segment in place of an old one, whose place is given.
    Rebuild(usize, RenewPlan),
    /// A segment in place of all others of a collection.
    Compact(RenewPlan),
    /// Segments of all rows in memory.
    Flush(FlushPlan),
    /// Nothing more.
    Done,
}

/// Work that is stored in several steps.
pub struct Job {
    /// The collection that was written to.
    pub name: String,
    /// What the write did.
    pub done: Applied,
    /// How many of the segments to rebuild have had their turn.
    pub next: usize,
    /// What is being stored.
    pub stage: Stage,
    /// How many steps of the stage were performed.
    pub at: usize,
}

/// What is stored once the first `k` of some steps were performed.
pub open spec fn reach(base: Disk, steps: Seq<Step>, k: int) -> Disk {
    base.performed_all(steps.take(k))
}

/// Whether a plan of compacting suits a database.
pub open spec fn may_compact(db: Database, plan: RenewPlan) -> bool {
    let view = db.collections@[plan.at as int].view;
    &&& plan.at < db.collections@.len()
    &&& match plan.seg {
        Some(s) => s.valid() && s.width() == view.width() && s.live() == settled_live(
            view.contents(),
        ) && s.rows().len() <= view.rows_total(),
        None => view.contents() == Map::<IdView, Entry>::empty(),
    }
}

/// Whether a plan of rebuilding suits a database.
pub open spec fn may_rebuild(db: Database, si: usize, plan: RenewPlan) -> bool {
    let view = db.collections@[plan.at as int].view;
    &&& plan.at < db.collections@.len()
    &&& si < view.immutables@.len()
    &&& match plan.seg {
        Some(s) => s.valid() && s.width() == view.width() && s.live() == settled_live(
            view.immutables@[si as int].live(),
        ) && s.rows().len() <= view.immutables@[si as int].rows().len(),
        None => view.immutables@[si as int].live() == Map::<IdView, Entry>::empty(),
    }
}

/// Which of the segments to rebuild is next, from place `i` of the list on: the first one
/// that is still there. The length of the list if there is none.
pub open spec fn next_worn(db: Database, name: Seq<char>, list: Seq<usize>, i: int) -> int
    decreases list.len() - i,
{
    let c = coll_at(db.collections@, name);
    if i >= list.len() {
        list.len() as int
    } else if c < db.collections@.len() && list[i] >= db.collections@[c].view.immutables@.len() {
        next_worn(db, name, list, i + 1)
    } else {
        i
    }
}

/// Whether every segment of a collection that is worth rebuilding has its turn still to come, at
/// place `i` of a list or later, or is at place `si`. The places in the list go down.
pub open spec fn worn_ahead(
    db: Database,
    name: Seq<char>,
    list: Seq<usize>,
    i: int,
    si: Option<usize>,
) -> bool {
    let c = coll_at(db.collections@, name);
    &&& forall|a: int, b: int| 0 <= a < b < list.len() ==> #[trigger] list[a] > #[trigger] list[b]
    &&& c < db.collections@.len() ==> forall|j: usize|
        j < db.collections@[c].view.immutables@.len() && (
        #[trigger] db.collections@[c].view.immutables@[j as int]).worn() ==> si == Some(j) || exists|
            a: int,
        |
            i <= a < list.len() && #[trigger] list[a] == j
}

/// Whether no segment of a collection is worth rebuilding.
pub open spec fn none_worn(db: Database, name: Seq<char>) -> bool {
    let c = coll_at(db.collections@, name);
    c < db.collections@.len() ==> forall|j: usize|
        j < db.collections@[c].view.immutables@.len() ==> !(
        #[trigger] db.collections@[c].view.immutables@[j as int]).worn()
}

/// Whether a write was logged: everything that a database keeps is stored, and the record of
/// the write comes next in the log. `next_lsn` is the number of the record behind it.
pub open spec fn logs(
    db: Database,
    disk: Disk,
    rec: RecordView,
    op: OpView,
    next_lsn: u64,
) -> bool {
    &&& next_lsn > 0
    &&& durable(db, disk, (next_lsn - 1) as u64)
    &&& rec.lsn == next_lsn - 1
    &&& settled_op(rec.op) == settled_op(op)
}

impl Job {
    /// The steps of the stage.
    pub open spec fn steps(&self) -> Seq<Step> {
        match self.stage {
            Stage::Write => self.done.steps@,
            Stage::Rebuild(_, plan) => plan.steps@,
            Stage::Compact(plan) => plan.steps@,
            Stage::Flush(plan) => plan.steps@,
            Stage::Done => Seq::empty(),
        }
    }

    /// Whether the stage can be closed in a database.
    pub open spec fn closable(&self, db: Database) -> bool {
        match self.stage {
            Stage::Rebuild(si, plan) => may_rebuild(db, si, plan),
            Stage::Compact(plan) => may_compact(db, plan),
            Stage::Flush(plan) => plan.suits(db),
            _ => true,
        }
    }

    /// Whether the collection is there where segments of it are still to be rebuilt.
    pub open spec fn seated(&self, db: Database) -> bool {
        (self.stage is Write || self.stage is Rebuild) && self.next < self.done.rebuild@.len()
            ==> coll_at(db.collections@, self.name@) < db.collections@.len()
    }

    /// Whether the job goes with a database. It is done when no step is left.
    pub open spec fn fits(&self, db: Database) -> bool {
        &&& db.valid()
        &&& self.closable(db)
        &&& self.seated(db)
        &&& self.at <= self.steps().len()
        &&& self.stage is Done <==> self.at == self.steps().len()
    }

    /// Whether closing the stage leads from a database to another, which keeps the same.
    pub open spec fn closes(&self, db: Database, after: Database) -> bool {
        &&& match self.stage {
            Stage::Rebuild(si, plan) => db.rebuild_committed(after, si, plan),
            Stage::Compact(plan) => db.compact_committed(after, plan),
            Stage::Flush(plan) => db.flush_committed(after, plan),
            _ => after == db,
        }
        &&& after.valid()
        &&& keeps_same(db, after)
        &&& db.apart() ==> after.apart()
    }

    /// Whether the job goes on as `job` once its stage was closed. After a write the segments
    /// that are worn are rebuilt, and then there is a flush if one is due.
    pub open spec fn leads<N, S>(
        &self,
        db: Database,
        after: Database,
        job: Job,
        next_lsn: u64,
        kernel: Kernel<N, S>,
    ) -> bool where N: Fn(&[u32]) -> u32, S: Fn(Metric, &[u32], u32, &[u32], u32) -> u32 {
        let list = self.done.rebuild@;
        let i = next_worn(db, self.name@, list, self.next as int);
        let worn = self.stage is Write || self.stage is Rebuild;
        &&& job.name == self.name
        &&& job.done == self.done
        &&& job.at == 0
        &&& if worn && i < list.len() {
            job.next == i + 1 && (job.stage matches Stage::Rebuild(si, plan) && si == list[i]
                && db.took(after, plan.seg) && exists|m: MutableSegment| #[trigger]
                db.rebuild_planned(self.name@, si, plan, kernel, m))
        } else if worn && self.done.need_flush {
            job.stage matches Stage::Flush(plan) && db.flush_planned(plan, next_lsn, kernel)
                && db.only_numbers(after) && after.next_seg_id == db.next_seg_id + plan.at@.len()
        } else {
            job.stage is Done && after == db
        }
    }

    /// Whether the job cannot go on once its stage was closed, for that reason.
    pub open spec fn halts(&self, db: Database, after: Database, e: Error) -> bool {
        let list = self.done.rebuild@;
        let i = next_worn(db, self.name@, list, self.next as int);
        &&& db.only_numbers(after)
        &&& self.stage is Write || self.stage is Rebuild
        &&& if i < list.len() {
            db.rebuild_refused(self.name@, list[i], e)
        } else {
            self.done.need_flush && db.flush_refused(e)
        }
    }

    /// Whether every segment that is worth rebuilding still has its turn; none is left once the
    /// job has gone on to something else.
    pub open spec fn tends(&self, db: Database) -> bool {
        let list = self.done.rebuild@;
        match self.stage {
            Stage::Write => worn_ahead(db, self.name@, list, self.next as int, None),
            Stage::Rebuild(si, plan) => {
                &&& worn_ahead(db, self.name@, list, self.next as int, Some(si))
                &&& 0 < self.next <= list.len()
                &&& list[self.next - 1] == si
                &&& plan.at == coll_at(db.collections@, self.name@)
                &&& plan.seg matches Some(s) ==> !s.worn()
            },
            Stage::Done => !self.done.need_flush ==> none_worn(db, self.name@),
            _ => true,
        }
    }

    /// Whether everything is stored once the stage is closed.
    pub open spec fn settles(&self, db: Database, end: Disk, next_lsn: u64) -> bool {
        &&& db.apart()
        &&& forall|after: Database| #[trigger]
            self.closes(db, after) ==> durable(after, end, next_lsn)
    }

    /// Whether the stage started from what was stored as `base`, and its steps are safe.
    pub open spec fn started(&self, db: Database, base: Disk, disk: Disk, next_lsn: u64) -> bool {
        &&& self.at <= self.steps().len()
        &&& disk == reach(base, self.steps(), self.at as int)
        &&& forall|k: int|
            self.at <= k <= self.steps().len() ==> gives_back(
                #[trigger] reach(base, self.steps(), k),
                db,
            )
        &&& self.settles(db, base.performed_all(self.steps()), next_lsn)
    }

    /// Whether what is stored is what it should be at this point of the job.
    pub open spec fn on_course(&self, db: Database, disk: Disk, next_lsn: u64) -> bool {
        exists|base: Disk| #[trigger] self.started(db, base, disk, next_lsn)
    }

    /// How many steps the stage has.
    pub fn len(&self) -> (n: usize)
        ensures
            n == self.steps().len(),
    {
        match &self.stage {
            Stage::Write => self.done.steps.len(),
            Stage::Rebuild(_, plan) => plan.steps.len(),
            Stage::Compact(plan) => plan.steps.len(),
            Stage::Flush(plan) => plan.steps.len(),
            Stage::Done => 0,
        }
    }

    /// The step that has to be performed next. The job is done when there is none.
    pub fn step(&self) -> (r: Option<&Step>)
        requires
            self.at <= self.steps().len(),
        ensures
            match r {
                Some(s) => self.at < self.steps().len() && *s == self.steps()[self.at as int],
                None => self.at == self.steps().len(),
            },
    {
        let steps: &Vec<Step> = match &self.stage {
            Stage::Write => &self.done.steps,
            Stage::Rebuild(_, plan) => &plan.steps,
            Stage::Compact(plan) => &plan.steps,
            Stage::Flush(plan) => &plan.steps,
            Stage::Done => {
                return None;
            },
        };
        if self.at < steps.len() {
            Some(&steps[self.at])
        } else {
            None
        }
    }
}

/// Whenever a job is cut short, opening the database gives back what it keeps.
pub proof fn law_cut_short_gives_back(job: Job, db: Database, disk: Disk, next_lsn: u64)
    requires
        job.on_course(db, disk, next_lsn),
    ensures
        gives_back(disk, db),
{
    let base = choose|base: Disk| #[trigger] job.started(db, base, disk, next_lsn);
    assert(gives_back(reach(base, job.steps(), job.at as int), db));
}

/// Once a job is done, everything that the database keeps is stored.
pub proof fn law_done_is_durable(job: Job, db: Database, disk: Disk, next_lsn: u64)
    requires
        db.valid(),
        job.stage is Done,
        job.on_course(db, disk, next_lsn),
    ensures
        durable(db, disk, next_lsn),
{
    let base = choose|base: Disk| #[trigger] job.started(db, base, disk, next_lsn);
    let steps = job.steps();
    assert(steps.take(0) =~= steps);
    assert(job.closes(db, db));
}

/// What depends on the collections alone is the same where only numbers were taken.
pub proof fn lemma_only_numbers(db: Database, after: Database)
    requires
        db.only_numbers(after),
    ensures
        db.valid() ==> after.valid(),
        db.apart() ==> after.apart(),
        forall|disk: Disk| #[trigger] gives_back(disk, db) ==> gives_back(disk, after),
        forall|disk: Disk, next_lsn: u64|
            #![trigger durable(db, disk, next_lsn)]
            durable(db, disk, next_lsn) && db.next_seg_id <= after.next_seg_id ==> durable(
                after,
                disk,
                next_lsn,
            ),
{
    assert forall|disk: Disk| #[trigger] gives_back(disk, db) implies gives_back(disk, after) by {
        assert forall|name: Seq<char>| #[trigger]
            settled_kept(disk.recovered(name)) == settled_kept(after.kept(name)) by {
            assert(after.kept(name) == db.kept(name));
        }
    }
    assert forall|disk: Disk, next_lsn: u64|
        #![trigger durable(db, disk, next_lsn)]
        durable(db, disk, next_lsn) && db.next_seg_id <= after.next_seg_id implies durable(
        after,
        disk,
        next_lsn,
    ) by {
        assert(gives_back(disk, db));
        assert forall|name: Seq<char>| #[trigger]
            after.kept(name) is Some <==> entry_at(disk.manifest.entries, name)
                < disk.manifest.entries.len() by {
            assert(after.kept(name) == db.kept(name));
        }
        assert forall|i: int, j: int, x: int, y: int| #[trigger]
            has_seg(after, i, j) && #[trigger] has_seg(after, x, y) && seg_number(after, i, j)
                == seg_number(after, x, y) implies i == x && j == y by {
            assert(has_seg(db, i, j) && has_seg(db, x, y));
        }
        assert forall|i: int, j: int| #[trigger] has_seg(after, i, j) implies seg_number(
            after,
            i,
            j,
        ) < after.next_seg_id by {
            assert(has_seg(db, i, j));
        }
    }
}

/// The rebuilding of a segment that was planned can be carried out.
pub proof fn lemma_rebuild_starts<N, S>(
    db: Database,
    after: Database,
    job: Job,
    si: usize,
    plan: RenewPlan,
    kernel: Kernel<N, S>,
    m: MutableSegment,
) where N: Fn(&[u32]) -> u32, S: Fn(Metric, &[u32], u32, &[u32], u32) -> u32
    requires
        db.valid(),
        job.at == 0,
        job.stage == Stage::Rebuild(si, plan),
        db.took(after, plan.seg),
        db.rebuild_planned(job.name@, si, plan, kernel, m),
    ensures
        job.fits(after),
        forall|disk: Disk, next_lsn: u64| #[trigger]
            durable(db, disk, next_lsn) ==> job.started(after, disk, disk, next_lsn),
{
    let steps = job.steps();
    lemma_only_numbers(db, after);
    if m.rows().len() == 0 {
        lemma_no_points(m);
    }
    lemma_rebuild_rows(db, job.name@, si, plan, kernel, m);
    assert forall|disk: Disk, next_lsn: u64| #[trigger]
        durable(db, disk, next_lsn) implies job.started(after, disk, disk, next_lsn) by {
        assert forall|k: int| 0 <= k <= steps.len() implies gives_back(
            #[trigger] reach(disk, steps, k),
            after,
        ) by {
            law_rebuild_survives(db, disk, job.name@, si, plan, kernel, m, next_lsn, k);
        }
        assert forall|c: Database| #[trigger] job.closes(after, c) implies durable(
            c,
            disk.performed_all(steps),
            next_lsn,
        ) by {
            law_rebuild_is_durable(
                db,
                after,
                c,
                disk,
                job.name@,
                si,
                plan,
                kernel,
                m,
                next_lsn,
            );
        }
        assert(steps.take(0) =~= Seq::<Step>::empty());
        assert(job.started(after, disk, disk, next_lsn));
    }
}

/// A compaction that was planned can be carried out.
pub proof fn lemma_compact_starts<N, S>(
    db: Database,
    after: Database,
    job: Job,
    plan: RenewPlan,
    kernel: Kernel<N, S>,
    m: MutableSegment,
) where N: Fn(&[u32]) -> u32, S: Fn(Metric, &[u32], u32, &[u32], u32) -> u32
    requires
        db.valid(),
        job.at == 0,
        job.stage == Stage::Compact(plan),
        db.took(after, plan.seg),
        db.compact_planned(job.name@, plan, kernel, m),
    ensures
        job.fits(after),
        forall|disk: Disk, next_lsn: u64| #[trigger]
            durable(db, disk, next_lsn) ==> job.started(after, disk, disk, next_lsn),
{
    let steps = job.steps();
    lemma_only_numbers(db, after);
    if m.rows().len() == 0 {
        lemma_no_points(m);
    }
    let view = db.collections@[plan.at as int].view;
    lemma_chronicle_fewer(view);
    lemma_put_fewer(m, renormed(view.chronicle(), kernel));
    assert forall|disk: Disk, next_lsn: u64| #[trigger]
        durable(db, disk, next_lsn) implies job.started(after, disk, disk, next_lsn) by {
        assert forall|k: int| 0 <= k <= steps.len() implies gives_back(
            #[trigger] reach(disk, steps, k),
            after,
        ) by {
            law_compact_survives(db, disk, job.name@, plan, kernel, m, next_lsn, k);
        }
        assert forall|c: Database| #[trigger] job.closes(after, c) implies durable(
            c,
            disk.performed_all(steps),
            next_lsn,
        ) by {
            law_compact_is_durable(db, after, c, disk, job.name@, plan, kernel, m, next_lsn);
        }
        assert(steps.take(0) =~= Seq::<Step>::empty());
        assert(job.started(after, disk, disk, next_lsn));
    }
}

/// A flush that was planned can be carried out.
pub proof fn lemma_flush_starts<N, S>(
    db: Database,
    after: Database,
    job: Job,
    plan: FlushPlan,
    next_lsn: u64,
    kernel: Kernel<N, S>,
) where N: Fn(&[u32]) -> u32, S: Fn(Metric, &[u32], u32, &[u32], u32) -> u32
    requires
        db.valid(),
        job.at == 0,
        next_lsn > 0,
        db.next_seg_id + db.collections@.len() <= u64::MAX,
        job.stage == Stage::Flush(plan),
        db.only_numbers(after),
        after.next_seg_id == db.next_seg_id + plan.at@.len(),
        db.flush_planned(plan, next_lsn, kernel),
    ensures
        job.fits(after),
        forall|disk: Disk| #[trigger]
            durable(db, disk, next_lsn) ==> job.started(after, disk, disk, next_lsn),
{
    let steps = job.steps();
    lemma_only_numbers(db, after);
    lemma_flush_suits(db, plan, next_lsn, kernel);
    assert forall|disk: Disk| #[trigger] durable(db, disk, next_lsn) implies job.started(
        after,
        disk,
        disk,
        next_lsn,
    ) by {
        assert forall|k: int| 0 <= k <= steps.len() implies gives_back(
            #[trigger] reach(disk, steps, k),
            after,
        ) by {
            law_flush_survives(db, disk, plan, next_lsn, kernel, k);
        }
        assert forall|c: Database| #[trigger] job.closes(after, c) implies durable(
            c,
            disk.performed_all(steps),
            next_lsn,
        ) by {
            law_flush_is_durable(db, after, c, disk, plan, next_lsn, kernel);
        }
        assert(steps.take(0) =~= Seq::<Step>::empty());
        assert(job.started(after, disk, disk, next_lsn));
    }
}

/// A job that is done asks for nothing.
pub proof fn lemma_done(db: Database, job: Job)
    requires
        db.valid(),
        job.stage is Done,
        job.at == 0,
    ensures
        job.fits(db),
        forall|disk: Disk, next_lsn: u64| #[trigger]
            durable(db, disk, next_lsn) ==> job.started(db, disk, disk, next_lsn),
{
    let steps = job.steps();
    assert(steps.take(0) =~= steps);
    assert forall|disk: Disk, next_lsn: u64| #[trigger]
        durable(db, disk, next_lsn) implies job.started(db, disk, disk, next_lsn) by {
        assert forall|k: int| 0 <= k <= steps.len() implies gives_back(
            #[trigger] reach(disk, steps, k),
            db,
        ) by {
            assert(steps.take(k) =~= steps);
        }
        assert(job.started(db, disk, disk, next_lsn));
    }
}

impl Database {
    /// Closes the stage of a job whose steps were all performed, and goes on to the next.
    fn advance<N, S>(&mut self, job: &mut Job, next_lsn: u64, kernel: &Kernel<N, S>) -> (r: Result<
        (),
        Error,
    >) where N: Fn(&[u32]) -> u32, S: Fn(Metric, &[u32], u32, &[u32], u32) -> u32
        requires
            old(self).valid(),
            old(job).closable(*old(self)),
            old(job).seated(*old(self)),
            kernel.valid(),
            next_lsn > 0,
            old(self).next_seg_id + old(self).collections@.len() < u64::MAX,
        ensures
            final(self).valid(),
            match r {
                Ok(_) => final(job).fits(*final(self)) && exists|mid: Database| #[trigger]
                    old(job).closes(*old(self), mid) && old(job).leads(
                        mid,
                        *final(self),
                        *final(job),
                        next_lsn,
                        *kernel,
                    ),
                Err(e) => exists|mid: Database| #[trigger]
                    old(job).closes(*old(self), mid) && old(job).halts(mid, *final(self), e),
            },
            forall|disk: Disk| #[trigger]
                old(job).settles(*old(self), disk, next_lsn) ==> match r {
                    Ok(_) => final(job).on_course(*final(self), disk, next_lsn),
                    Err(_) => durable(*final(self), disk, next_lsn),
                },
            r is Ok && (old(job).stage is Write || old(job).stage is Rebuild) && old(job).tends(
                *old(self),
            ) ==> final(job).tends(*final(self)),
    {
        let ghost before = *self;
        let ghost first = *job;
        let mut stage = Stage::Done;
        core::mem::swap(&mut job.stage, &mut stage);
        job.at = 0;
        let more: bool = match stage {
            Stage::Write => true,
            Stage::Rebuild(si, plan) => {
                self.commit_rebuild(si, plan);
                true
            },
            Stage::Compact(plan) => {
                self.commit_compact(plan);
                false
            },
            Stage::Flush(plan) => {
                self.commit_flush(plan);
                false
            },
            Stage::Done => false,
        };
        let ghost mid = *self;
        assert(first.closes(before, mid));
        proof {
            lemma_closes_names(first, before, mid, first.name@);
        }
        assert(forall|disk: Disk| #[trigger]
            first.settles(before, disk, next_lsn) ==> durable(mid, disk, next_lsn));
        proof {
            lemma_done(mid, *job);
        }
        if !more {
            assert(first.leads(mid, *self, *job, next_lsn, *kernel));
            return Ok(());
        }
        let ghost minded = first.tends(before);
        proof {
            if minded {
                lemma_tended(before, mid, first);
            }
        }
        let ghost list = first.done.rebuild@;
        while job.next < job.done.rebuild.len()
            invariant
                *self == mid,
                mid.valid(),
                kernel.valid(),
                next_lsn > 0,
                mid.next_seg_id + mid.collections@.len() < u64::MAX,
                job.name == first.name,
                job.done == first.done,
                job.at == 0,
                job.stage is Done,
                list == first.done.rebuild@,
                first.stage is Write || first.stage is Rebuild,
                first.closes(before, mid),
                before == *old(self),
                first == *old(job),
                forall|disk: Disk| #[trigger]
                    first.settles(before, disk, next_lsn) ==> durable(mid, disk, next_lsn),
                next_worn(mid, first.name@, list, job.next as int) == next_worn(
                    mid,
                    first.name@,
                    list,
                    first.next as int,
                ),
                minded == first.tends(before),
                minded ==> worn_ahead(mid, first.name@, list, job.next as int, None),
            decreases job.done.rebuild@.len() - job.next,
        {
            let si: usize = job.done.rebuild[job.next];
            job.next = job.next + 1;
            match self.plan_rebuild(job.name.as_str(), si, kernel) {
                Err(e) => {
                    proof {
                        lemma_only_numbers(mid, *self);
                        assert(next_worn(mid, first.name@, list, job.next - 1) == job.next - 1) by {
                            lemma_refused_worn(mid, first.name@, list, job.next - 1, e);
                        }
                        assert(first.halts(mid, *self, e));
                    }
                    return Err(e);
                },
                Ok(None) => {
                    assert(*self == mid);
                    assert(minded ==> worn_ahead(mid, first.name@, list, job.next as int, None));
                },
                Ok(Some(plan)) => {
                    let ghost p = plan;
                    job.stage = Stage::Rebuild(si, plan);
                    proof {
                        let m = choose|m: MutableSegment| #[trigger]
                            mid.rebuild_planned(first.name@, si, p, *kernel, m);
                        lemma_rebuild_starts(mid, *self, *job, si, p, *kernel, m);
                        lemma_not_worn(mid, first.name@, si, p, *kernel, m);
                        assert(first.leads(mid, *self, *job, next_lsn, *kernel));
                        assert(minded ==> job.tends(*self));
                    }
                    return Ok(());
                },
            }
        }
        if job.done.need_flush {
            match self.plan_flush(next_lsn, kernel) {
                Err(e) => {
                    proof {
                        lemma_only_numbers(mid, *self);
                        assert(first.halts(mid, *self, e));
                    }
                    return Err(e);
                },
                Ok(plan) => {
                    let ghost p = plan;
                    job.stage = Stage::Flush(plan);
                    proof {
                        lemma_flush_starts(mid, *self, *job, p, next_lsn, *kernel);
                        assert(first.leads(mid, *self, *job, next_lsn, *kernel));
                    }
                    return Ok(());
                },
            }
        }
        proof {
            lemma_done(mid, *job);
            assert(first.leads(mid, *self, *job, next_lsn, *kernel));
            assert(minded ==> none_worn(mid, first.name@));
        }
        Ok(())
    }

    /// Applies a write that was logged. `next_lsn` is the number of the next record of the
    /// log.
    pub fn start_write<N, S>(&mut self, op: &Op, next_lsn: u64, kernel: &Kernel<N, S>) -> (r:
        Result<Job, Error>) where
        N: Fn(&[u32]) -> u32,
        S: Fn(Metric, &[u32], u32, &[u32], u32) -> u32,

        requires
            old(self).valid(),
            kernel.valid(),
            next_lsn > 0,
            old(self).next_seg_id + old(self).collections@.len() + 1 < u64::MAX,
        ensures
            final(self).valid(),
            wrote(*old(self), *final(self), *op, next_lsn, *kernel, r),
            stays_on_course(*old(self), *final(self), *op, next_lsn, r),
            op is Delete ==> (r matches Ok(job) ==> job.tends(*final(self))),
    {
        let ghost before = *self;
        let done = match self.apply(op, kernel) {
            Ok(a) => a,
            Err(e) => {
                return Err(e);
            },
        };
        let ghost mid = *self;
        let ghost a = done;
        let name: String = subject_of(op).to_owned();
        let mut job = Job { name, done, next: 0, stage: Stage::Write, at: 0 };
        let ghost first = job;
        proof {
            assert(first == first_job(first.name, a));
            assert(before.applies(mid, *op, *kernel, a));
            lemma_write_starts(before, mid, first, *op, next_lsn, *kernel);
            lemma_one_more(before, mid, *op, *kernel, a);
            lemma_seated(before, mid, *op, *kernel, first);
            if op is Delete {
                lemma_delete_tends(before, mid, *op, *kernel, first);
            }
        }
        if job.done.steps.len() > 0 {
            assert(begins(mid, *self, a, job, op@, next_lsn, *kernel));
            return Ok(job);
        }
        let went = self.advance(&mut job, next_lsn, kernel);
        proof {
            assert forall|disk: Disk, rec: RecordView| #[trigger]
                logs(before, disk, rec, op@, next_lsn) implies match went {
                Ok(_) => job.on_course(*self, disk.appended(rec), next_lsn),
                Err(_) => durable(*self, disk.appended(rec), next_lsn),
            } by {
                assert(a.steps@ =~= Seq::<Step>::empty());
                assert(first.settles(mid, disk.appended(rec).performed_all(a.steps@), next_lsn));
                assert(disk.appended(rec).performed_all(a.steps@) == disk.appended(rec));
            }
        }
        match went {
            Ok(_) => {
                proof {
                    let c = choose|c: Database| #[trigger]
                        first.closes(mid, c) && first.leads(c, *self, job, next_lsn, *kernel);
                    assert(c == mid);
                    assert(begins(mid, *self, a, job, op@, next_lsn, *kernel));
                    lemma_only_numbers(mid, *self);
                    assert forall|name: Seq<char>| #[trigger] self.kept(name) == mid.kept(
                        name,
                    ) by {}
                }
                Ok(job)
            },
            Err(e) => {
                proof {
                    let c = choose|c: Database| #[trigger]
                        first.closes(mid, c) && first.halts(c, *self, e);
                    assert(c == mid);
                    assert(first.name@ == subject(op@));
                    assert(breaks_off(mid, *self, a, op@, e));
                }
                Err(e)
            },
        }
    }

    /// Writes: logs an operation, and applies it once it is in the log. Where it cannot be
    /// logged, nothing is applied.
    pub fn write<B, E, D, N, S>(
        &mut self,
        wal: &mut Wal,
        backend: &mut B,
        op: &Op,
        codec: &Codec<E, D>,
        kernel: &Kernel<N, S>,
    ) -> (r: Result<Job, Error>) where
        B: StorageBackend,
        E: Fn(&WalRecord) -> Result<Vec<u8>, String>,
        D: Fn(&[u8]) -> Result<WalRecord, String>,
        N: Fn(&[u32]) -> u32,
        S: Fn(Metric, &[u32], u32, &[u32], u32) -> u32,

        requires
            old(self).valid(),
            codec.valid(),
            kernel.valid(),
            old(wal).next() < u64::MAX,
            old(wal).at() + MAX_FRAME + 8 <= u64::MAX,
            old(self).next_seg_id + old(self).collections@.len() + 1 < u64::MAX,
        ensures
            final(self).valid(),
            ({
                let logged = old(wal).appends(
                    *final(wal),
                    old(backend).data(),
                    final(backend).data(),
                    op@,
                    *codec,
                );
                let next_lsn = final(wal).next();
                ||| logged && wrote(*old(self), *final(self), *op, next_lsn, *kernel, r)
                    && stays_on_course(*old(self), *final(self), *op, next_lsn, r)
                ||| *final(wal) == *old(wal) && *final(self) == *old(self) && match codec.encoded(
                    RecordView { lsn: old(wal).next(), op: op@ },
                ) {
                    Err(text) => r is Err && r->Err_0 is Serde && r->Err_0->Serde_0@ == text
                        && *final(backend) == *old(backend),
                    Ok(body) => if body.len() > MAX_FRAME {
                        r is Err && r->Err_0 == Error::Invalid(
                            Invalid::RecordTooLarge(body.len() as usize),
                        ) && *final(backend) == *old(backend)
                    } else {
                        r is Err && r->Err_0 is Io && !(old(backend).reliable() && old(wal).at() + 8
                            + body.len() <= usize::MAX)
                    },
                }
            }),
            same_start(old(backend).data(), final(backend).data(), old(wal).at() as int),
            old(wal).at() <= old(backend).data().len() ==> final(wal).at() <= final(backend).data().len(),
            op is Delete ==> (r matches Ok(job) ==> job.tends(*final(self))),
            *final(wal) != *old(wal) ==> final(backend).kept() == final(backend).data(),
            old(backend).reliable() ==> final(backend).reliable(),
    {
        match wal.append(backend, op, codec) {
            Ok(_) => self.start_write(op, wal.next_lsn(), kernel),
            Err(e) => Err(e),
        }
    }

    /// Starts a flush. `next_lsn` is the number of the next record of the log. Once the job is
    /// done, no rows are in memory, the log is empty, and the manifest says that all records
    /// before `next_lsn` are in segments.
    pub fn start_flush<N, S>(&mut self, next_lsn: u64, kernel: &Kernel<N, S>) -> (r: Result<
        Job,
        Error,
    >) where N: Fn(&[u32]) -> u32, S: Fn(Metric, &[u32], u32, &[u32], u32) -> u32
        requires
            old(self).valid(),
            kernel.valid(),
            next_lsn > 0,
            old(self).next_seg_id + old(self).collections@.len() <= u64::MAX,
        ensures
            final(self).valid(),
            old(self).only_numbers(*final(self)),
            match r {
                Ok(job) => job.fits(*final(self)) && job.at == 0 && (job.stage matches Stage::Flush(
                    plan,
                ) && old(self).flush_planned(plan, next_lsn, *kernel) && final(self).next_seg_id
                    == old(self).next_seg_id + plan.at@.len()),
                Err(e) => old(self).flush_refused(e),
            },
            forall|disk: Disk| #[trigger]
                durable(*old(self), disk, next_lsn) ==> match r {
                    Ok(job) => job.on_course(*final(self), disk, next_lsn),
                    Err(_) => durable(*final(self), disk, next_lsn),
                },
    {
        let ghost before = *self;
        let plan = self.plan_flush(next_lsn, kernel);
        proof {
            lemma_only_numbers(before, *self);
        }
        let mut job = idle("");
        match plan {
            Err(e) => {
                return Err(e);
            },
            Ok(plan) => {
                let ghost p = plan;
                job.stage = Stage::Flush(plan);
                proof {
                    lemma_flush_starts(before, *self, job, p, next_lsn, *kernel);
                }
            },
        }
        Ok(job)
    }

    /// Starts compacting a collection.
    pub fn start_compact<N, S>(&mut self, name: &str, kernel: &Kernel<N, S>) -> (r: Result<
        Job,
        Error,
    >) where N: Fn(&[u32]) -> u32, S: Fn(Metric, &[u32], u32, &[u32], u32) -> u32
        requires
            old(self).valid(),
            kernel.valid(),
            old(self).next_seg_id < u64::MAX,
            forall|i: int|
                0 <= i < old(self).collections@.len() ==> (#[trigger] old(
                    self,
                ).collections@[i]).view.rows_total() <= u64::MAX,
        ensures
            final(self).valid(),
            old(self).only_numbers(*final(self)),
            match r {
                Ok(job) => job.fits(*final(self)) && job.at == 0 && job.name@ == name@ && (
                job.stage matches Stage::Compact(plan) && old(self).took(*final(self), plan.seg)
                    && exists|m: MutableSegment| #[trigger]
                    old(self).compact_planned(name@, plan, *kernel, m)),
                Err(e) => old(self).compact_refused(name@, e),
            },
            forall|disk: Disk, next_lsn: u64| #[trigger]
                durable(*old(self), disk, next_lsn) ==> match r {
                    Ok(job) => job.on_course(*final(self), disk, next_lsn),
                    Err(_) => durable(*final(self), disk, next_lsn),
                },
    {
        let ghost before = *self;
        let plan = self.plan_compact(name, kernel);
        proof {
            lemma_only_numbers(before, *self);
        }
        match plan {
            Err(e) => Err(e),
            Ok(plan) => {
                let ghost p = plan;
                let mut job = idle(name);
                job.stage = Stage::Compact(plan);
                proof {
                    let m = choose|m: MutableSegment| #[trigger]
                        before.compact_planned(name@, p, *kernel, m);
                    lemma_compact_starts(before, *self, job, p, *kernel, m);
                }
                Ok(job)
            },
        }
    }

    /// Goes on with a job once its next step was performed. `next_lsn` is the number of the
    /// next record of the log.
    pub fn proceed<N, S>(&mut self, job: &mut Job, next_lsn: u64, kernel: &Kernel<N, S>) -> (r:
        Result<(), Error>) where
        N: Fn(&[u32]) -> u32,
        S: Fn(Metric, &[u32], u32, &[u32], u32) -> u32,

        requires
            old(job).fits(*old(self)),
            old(job).at < old(job).steps().len(),
            kernel.valid(),
            next_lsn > 0,
            old(self).next_seg_id + old(self).collections@.len() < u64::MAX,
        ensures
            final(self).valid(),
            r is Ok ==> final(job).fits(*final(self)),
            old(job).at + 1 < old(job).steps().len() ==> r is Ok && *final(self) == *old(self)
                && *final(job) == (Job { at: (old(job).at + 1) as usize, ..*old(job) }),
            r is Ok && (old(job).stage is Write || old(job).stage is Rebuild) && old(job).tends(
                *old(self),
            ) ==> final(job).tends(*final(self)),
            old(job).at + 1 == old(job).steps().len() ==> exists|mid: Database| #[trigger]
                old(job).closes(*old(self), mid) && match r {
                    Ok(_) => old(job).leads(mid, *final(self), *final(job), next_lsn, *kernel),
                    Err(e) => old(job).halts(mid, *final(self), e),
                },
            forall|disk: Disk| #[trigger]
                old(job).on_course(*old(self), disk, next_lsn) ==> {
                    let now = disk.performed(old(job).steps()[old(job).at as int]);
                    match r {
                        Ok(_) => final(job).on_course(*final(self), now, next_lsn),
                        Err(_) => durable(*final(self), now, next_lsn),
                    }
                },
    {
        let ghost before = *self;
        let ghost first = *job;
        let ghost steps = job.steps();
        let len: usize = job.len();
        job.at = job.at + 1;
        let ghost moved = *job;
        proof {
            assert(moved.steps() == steps);
            assert forall|disk: Disk| #[trigger] first.on_course(before, disk, next_lsn) implies
                moved.on_course(before, disk.performed(steps[first.at as int]), next_lsn) by {
                lemma_one_step(first, moved, before, disk, next_lsn);
            }
        }
        if job.at < len {
            return Ok(());
        }
        let r = self.advance(job, next_lsn, kernel);
        proof {
            assert forall|d: Database| #[trigger] moved.closes(before, d) implies first.closes(
                before,
                d,
            ) by {}
            assert forall|disk: Disk| #[trigger] first.on_course(before, disk, next_lsn) implies ({
                let now = disk.performed(steps[first.at as int]);
                match r {
                    Ok(_) => job.on_course(*self, now, next_lsn),
                    Err(_) => durable(*self, now, next_lsn),
                }
            }) by {
                let now = disk.performed(steps[first.at as int]);
                let base = choose|base: Disk| #[trigger]
                    moved.started(before, base, now, next_lsn);
                assert(steps.take(steps.len() as int) =~= steps);
                assert(moved.settles(before, now, next_lsn));
            }
        }
        r
    }
}

/// Once a stage is closed, every segment that is worth rebuilding still has its turn.
proof fn lemma_tended(db: Database, after: Database, job: Job)
    requires
        db.valid(),
        job.closable(db),
        job.closes(db, after),
        job.tends(db),
        job.stage is Write || job.stage is Rebuild,
    ensures
        worn_ahead(after, job.name@, job.done.rebuild@, job.next as int, None),
{
    let list = job.done.rebuild@;
    if let Stage::Rebuild(si, plan) = job.stage {
        let name = job.name@;
        let c = plan.at as int;
        let old_segs = db.collections@[c].view.immutables@;
        let segs = after.collections@[c].view.immutables@;
        let all = db.collections@[c].view.immutables;
        assert(all.len() == old_segs.len());
        lemma_coll_from(db.collections@, name, 0);
        lemma_coll_from(after.collections@, name, 0);
        assert(after.collections@[c].name == db.collections@[c].name);
        assert(coll_at(after.collections@, name) == c) by {
            let x = coll_at(after.collections@, name);
            if x < c {
                assert(after.collections@[x] == db.collections@[x]);
            } else if x > c {
                assert(after.collections@[c].name@ != name);
            }
        }
        assert forall|j: usize|
            j < segs.len() && (#[trigger] segs[j as int]).worn() implies exists|a: int|
            job.next <= a < list.len() && #[trigger] list[a] == j by {
            if plan.seg is Some {
                assert(j != si);
                assert(old_segs[j as int].worn());
            } else if j < si {
                assert(segs[j as int] == old_segs[j as int]);
                assert(old_segs[j as int].worn());
            } else {
                let k = (j + 1) as usize;
                assert(segs[j as int] == old_segs[k as int]);
                assert(old_segs[k as int].worn());
                let a = choose|a: int| job.next <= a < list.len() && #[trigger] list[a] == k;
                assert(list[job.next - 1] > list[a]);
            }
        }
    }
}

/// A segment that is put in the place of another one has no dead rows.
proof fn lemma_not_worn<N, S>(
    db: Database,
    name: Seq<char>,
    si: usize,
    plan: RenewPlan,
    kernel: Kernel<N, S>,
    m: MutableSegment,
) where N: Fn(&[u32]) -> u32, S: Fn(Metric, &[u32], u32, &[u32], u32) -> u32
    requires
        db.rebuild_planned(name, si, plan, kernel, m),
    ensures
        plan.seg matches Some(s) ==> !s.worn(),
{
    let seg = db.collections@[plan.at as int].view.immutables@[si as int];
    let rows = renormed(live_rows(seg.rows(), seg.dead()), kernel);
    lemma_no_dead(rows);
    assert(m.table().dead =~= Set::<u32>::empty());
}

/// Rows that were written one after the other are alive.
pub proof fn lemma_no_dead(rows: Seq<Row>)
    ensures
        no_rows().put_all(rows).dead == Set::<u32>::empty(),
    decreases rows.len(),
{
    if rows.len() > 0 {
        lemma_no_dead(rows.drop_last());
        assert(no_rows().put_all(rows).dead =~= Set::<u32>::empty());
    }
}

/// Where segments are to be rebuilt after a write, their collection is there.
pub proof fn lemma_seated<N, S>(
    db: Database,
    after: Database,
    op: Op,
    kernel: Kernel<N, S>,
    first: Job,
) where N: Fn(&[u32]) -> u32, S: Fn(Metric, &[u32], u32, &[u32], u32) -> u32
    requires
        first.name@ == subject(op@),
        db.applies(after, op, kernel, first.done),
    ensures
        first.seated(after),
{
    if op is Delete {
        let name = subject(op@);
        let c = coll_at(db.collections@, name);
        lemma_coll_from(db.collections@, name, 0);
        lemma_coll_from(after.collections@, name, 0);
        assert(after.collections@[c].name == db.collections@[c].name);
    }
}

/// After points were deleted, every segment that is worth rebuilding has its turn to come.
proof fn lemma_delete_tends<N, S>(
    db: Database,
    after: Database,
    op: Op,
    kernel: Kernel<N, S>,
    first: Job,
) where N: Fn(&[u32]) -> u32, S: Fn(Metric, &[u32], u32, &[u32], u32) -> u32
    requires
        op is Delete,
        first.name@ == subject(op@),
        first.next == 0,
        first.stage is Write,
        db.applies(after, op, kernel, first.done),
    ensures
        first.tends(after),
{
    let name = subject(op@);
    let list = first.done.rebuild@;
    let c = coll_at(db.collections@, name);
    lemma_coll_from(db.collections@, name, 0);
    lemma_coll_from(after.collections@, name, 0);
    assert(after.collections@[c].name == db.collections@[c].name);
    assert(coll_at(after.collections@, name) == c) by {
        let x = coll_at(after.collections@, name);
        if x < c {
            assert(after.collections@[x] == db.collections@[x]);
        } else if x > c {
            assert(after.collections@[c].name@ != name);
        }
    }
    let segs = after.collections@[c].view.immutables@;
    assert forall|j: usize| j < segs.len() && (#[trigger] segs[j as int]).worn() implies exists|
        a: int,
    |
        0 <= a < list.len() && #[trigger] list[a] == j by {
        assert(list.contains(j));
    }
}

/// Once a job of deleting points is done, no segment of the collection has more than three in
/// ten rows deleted.
pub proof fn law_no_worn_segment_is_left(job: Job, db: Database)
    requires
        job.tends(db),
        job.stage is Done,
        !job.done.need_flush,
    ensures
        none_worn(db, job.name@),
{
}

/// A job that has nothing to do.
pub fn idle(name: &str) -> (job: Job)
    ensures
        job.name@ == name@,
        job.stage is Done,
        job.at == 0,
{
    Job {
        name: name.to_owned(),
        done: Applied {
            count: 0,
            need_flush: false,
            steps: Vec::new(),
            rebuild: Vec::new(),
        },
        next: 0,
        stage: Stage::Done,
        at: 0,
    }
}

/// The job of a write that was applied.
pub open spec fn first_job(name: String, a: Applied) -> Job {
    Job { name, done: a, next: 0, stage: Stage::Write, at: 0 }
}

/// Whether a job is what a write starts with: what it changed has to be stored. Where that is
/// nothing, the job has gone on.
pub open spec fn begins<N, S>(
    mid: Database,
    after: Database,
    a: Applied,
    job: Job,
    op: OpView,
    next_lsn: u64,
    kernel: Kernel<N, S>,
) -> bool where N: Fn(&[u32]) -> u32, S: Fn(Metric, &[u32], u32, &[u32], u32) -> u32 {
    let first = first_job(job.name, a);
    &&& job.name@ == subject(op)
    &&& if a.steps@.len() > 0 {
        job == first && after == mid
    } else {
        first.leads(mid, after, job, next_lsn, kernel)
    }
}

/// Whether a write that changed nothing stored cannot go on, for that reason.
pub open spec fn breaks_off(
    mid: Database,
    after: Database,
    a: Applied,
    op: OpView,
    e: Error,
) -> bool {
    a.steps@.len() == 0 && exists|name: String|
        name@ == subject(op) && #[trigger] first_job(name, a).halts(mid, after, e)
}

/// Whether a write was applied, and its job starts as it should; or why it was not.
pub open spec fn wrote<N, S>(
    before: Database,
    after: Database,
    op: Op,
    next_lsn: u64,
    kernel: Kernel<N, S>,
    r: Result<Job, Error>,
) -> bool where N: Fn(&[u32]) -> u32, S: Fn(Metric, &[u32], u32, &[u32], u32) -> u32 {
    match r {
        Ok(job) => {
            &&& job.fits(after)
            &&& before.follows(after, op@)
            &&& exists|mid: Database, a: Applied| #[trigger]
                before.applies(mid, op, kernel, a) && mid.valid() && before.rest_same(mid)
                    && before.follows(mid, op@) && begins(
                    mid,
                    after,
                    a,
                    job,
                    op@,
                    next_lsn,
                    kernel,
                )
        },
        Err(e) => {
            ||| before.refuses(op, e) && after == before
            ||| exists|mid: Database, a: Applied| #[trigger]
                before.applies(mid, op, kernel, a) && before.rest_same(mid) && before.follows(
                    mid,
                    op@,
                ) && breaks_off(mid, after, a, op@, e)
        },
    }
}

/// Whether a write is safe once it was logged: its job is on course, or there is nothing to do.
pub open spec fn stays_on_course(
    before: Database,
    after: Database,
    op: Op,
    next_lsn: u64,
    r: Result<Job, Error>,
) -> bool {
    forall|disk: Disk, rec: RecordView| #[trigger]
        logs(before, disk, rec, op@, next_lsn) ==> match r {
            Ok(job) => job.on_course(after, disk.appended(rec), next_lsn),
            Err(e) => before.refuses(op, e) || durable(after, disk.appended(rec), next_lsn),
        }
}

/// The job of a write that was logged is on course.
pub proof fn lemma_write_starts<N, S>(
    db: Database,
    mid: Database,
    first: Job,
    op: Op,
    next_lsn: u64,
    kernel: Kernel<N, S>,
) where N: Fn(&[u32]) -> u32, S: Fn(Metric, &[u32], u32, &[u32], u32) -> u32
    requires
        db.applies(mid, op, kernel, first.done),
        mid.valid(),
        db.rest_same(mid),
        db.follows(mid, op@),
        first.stage is Write,
        first.at == 0,
    ensures
        forall|disk: Disk, rec: RecordView| #[trigger]
            logs(db, disk, rec, op@, next_lsn) ==> first.started(
                mid,
                disk.appended(rec),
                disk.appended(rec),
                next_lsn,
            ) && first.settles(
                mid,
                disk.appended(rec).performed_all(first.done.steps@),
                next_lsn,
            ),
{
    let steps = first.done.steps@;
    assert forall|disk: Disk, rec: RecordView| #[trigger]
        logs(db, disk, rec, op@, next_lsn) implies first.started(
        mid,
        disk.appended(rec),
        disk.appended(rec),
        next_lsn,
    ) && first.settles(mid, disk.appended(rec).performed_all(steps), next_lsn) by {
        let base = disk.appended(rec);
        let lsn = (next_lsn - 1) as u64;
        let n = steps.len() as int;
        assert(steps.take(n) =~= steps);
        assert(steps.take(0) =~= Seq::<Step>::empty());
        assert forall|k: int| 0 <= k <= n implies gives_back(
            #[trigger] reach(base, steps, k),
            mid,
        ) by {
            law_write_survives(db, mid, disk, lsn, op, rec, kernel, first.done, k);
        }
        law_write_survives(db, mid, disk, lsn, op, rec, kernel, first.done, n);
        assert(durable(mid, base.performed_all(steps), next_lsn));
        assert(first.settles(mid, base.performed_all(steps), next_lsn));
        assert(first.started(mid, base, base, next_lsn));
    }
}

/// An operation adds one collection at most.
proof fn lemma_one_more<N, S>(
    db: Database,
    after: Database,
    op: Op,
    kernel: Kernel<N, S>,
    a: Applied,
) where N: Fn(&[u32]) -> u32, S: Fn(Metric, &[u32], u32, &[u32], u32) -> u32
    requires
        db.applies(after, op, kernel, a),
    ensures
        after.collections@.len() <= db.collections@.len() + 1,
{
    lemma_coll_from(db.collections@, subject(op@), 0);
}

/// A step that was performed brings a job one step further from where it started.
pub proof fn lemma_step_started(
    job: Job,
    moved: Job,
    db: Database,
    base: Disk,
    disk: Disk,
    next_lsn: u64,
)
    requires
        job.started(db, base, disk, next_lsn),
        job.at < job.steps().len() <= usize::MAX,
        moved == (Job { at: (job.at + 1) as usize, ..job }),
    ensures
        moved.started(db, base, disk.performed(job.steps()[job.at as int]), next_lsn),
        moved.steps() == job.steps(),
{
    let steps = job.steps();
    let k = job.at as int;
    let now = disk.performed(steps[k]);
    assert(moved.steps() == steps);
    assert(steps.take(k + 1).drop_last() =~= steps.take(k));
    assert(steps.take(k + 1).last() == steps[k]);
    assert(now == reach(base, steps, k + 1));
    assert forall|d: Database| #[trigger] moved.closes(db, d) implies job.closes(db, d) by {}
}

/// Once the last step of a stage was performed, closing it leaves everything stored.
pub proof fn lemma_closing(
    job: Job,
    db: Database,
    base: Disk,
    disk: Disk,
    next_lsn: u64,
    mid: Database,
)
    requires
        job.started(db, base, disk, next_lsn),
        job.at + 1 == job.steps().len(),
        job.closes(db, mid),
    ensures
        durable(mid, disk.performed(job.steps()[job.at as int]), next_lsn),
{
    let steps = job.steps();
    let k = job.at as int;
    assert(steps.take(k + 1) =~= steps);
    assert(steps.drop_last() =~= steps.take(k));
    assert(steps.last() == steps[k]);
    assert(base.performed_all(steps) == disk.performed(steps[k]));
}

/// A step that was performed brings a job one step further.
proof fn lemma_one_step(job: Job, moved: Job, db: Database, disk: Disk, next_lsn: u64)
    requires
        job.on_course(db, disk, next_lsn),
        job.at < job.steps().len() <= usize::MAX,
        moved == (Job { at: (job.at + 1) as usize, ..job }),
    ensures
        moved.on_course(db, disk.performed(job.steps()[job.at as int]), next_lsn),
{
    let base = choose|base: Disk| #[trigger] job.started(db, base, disk, next_lsn);
    let steps = job.steps();
    let k = job.at as int;
    let now = disk.performed(steps[k]);
    assert(moved.steps() == steps);
    assert(steps.take(k + 1).drop_last() =~= steps.take(k));
    assert(steps.take(k + 1).last() == steps[k]);
    assert(now == reach(base, steps, k + 1));
    assert forall|d: Database| #[trigger] moved.closes(db, d) implies job.closes(db, d) by {}
    assert(moved.started(db, base, now, next_lsn));
}

/// Where rebuilding a segment is refused, its turn has come.
proof fn lemma_refused_worn(db: Database, name: Seq<char>, list: Seq<usize>, i: int, e: Error)
    requires
        0 <= i < list.len(),
        db.rebuild_refused(name, list[i], e),
    ensures
        next_worn(db, name, list, i) == i,
{
    lemma_coll_from(db.collections@, name, 0);
}

} // verus!
