//! Databases on files.
//!
//! What a database keeps is stored in files. [`Format::carry_out`] carries out a job on them,
//! step by step; whenever that is cut short, the files still say what the database keeps.

use vstd::prelude::*;

use crate::engine::apply::Applied;
use crate::engine::database::{coll_at, lemma_coll_from, Collection, Database, Step};
use crate::engine::disk::Disk;
use crate::engine::durable::{
    durable, gives_back, has_num, has_seg, is_stored, lemma_entry_stored, numbered, seg_number,
};
use crate::engine::format::{can_take, log_bytes, log_whole, Format};
use crate::engine::fresh::{
    fresh, lemma_flush_fresh, lemma_renew_fresh, lemma_trimmed, lemma_write_fresh, trimmed,
};
use crate::engine::job::{
    begins, breaks_off, first_job, lemma_no_dead, lemma_only_numbers, lemma_write_starts, logs, wrote,
    idle, law_done_is_durable, lemma_closing, lemma_compact_starts, lemma_done, lemma_flush_starts,
    lemma_rebuild_starts, lemma_seated, lemma_step_started, next_worn, none_worn, reach, Job, Stage,
};
use crate::engine::norms::{
    keeps_norms, law_compacting_keeps_norms, law_finishing_keeps_norms, law_flushing_keeps_norms,
    law_writing_keeps_norms,
};
use crate::engine::outcome::{
    law_outcome_settles, needs_collection, outcome, settled_kept, subject,
};
use crate::engine::plan::{by_name, flushed_to, keeps_same, unflushed, FlushPlan};
use crate::engine::read::rows_in;
use crate::engine::merge::renormed;
use crate::engine::renew::{lemma_no_points, numbers, RenewPlan};
use crate::engine::room::{
    at_home, laid_out, lemma_home, lemma_room_files, lemma_root_places, roomy, standing,
    standing_after,
};
use crate::engine::sweep::{
    clears, lemma_clears_closed, lemma_clears_done, lemma_clears_step, lemma_compact_sweeps,
    lemma_flush_sweeps, lemma_lead_clears, lemma_write_sweeps, listed, matched, swept,
};
use crate::engine::track::{
    compacted_as, finished, flushed_as, law_only_worn_segments_are_rebuilt, lemma_tracks,
    lemma_tracks_first, rebuilt, tends_to, tracks,
};
use crate::engine::write::worn_list;
use crate::engine::laws::lemma_flush_steps_first;
use crate::engine::tally::{
    can_hold, counted, lemma_counted, lemma_counted_same, lemma_enlisted_after, lemma_space_after,
    lemma_worn_few,
    points_in,
};
use crate::engine::size::{
    has_space, lemma_buildable_none, lemma_spacious_less,
    enlisted, lemma_closes_fewer, lemma_closes_names, lemma_closes_roster, lemma_enlisted,
    lemma_compact_goes, lemma_flush_goes, lemma_flushes, lemma_rebuild_goes, lemma_roster,
    same_roster, spacious,
};
use crate::error::{Error, Invalid};
use crate::id::{ExternalId, IdView};
use crate::json::{Json, JsonView};
use crate::kernel::{Kernel, Metric};
use crate::manifest::{entry_at, lemma_entry_from, names_differ, references, Manifest};
use crate::segment::files::{file_at, Part, SegmentFiles};
use crate::segment::immutable::{settled_live, ImmutableSegment, SegmentParts};
use crate::segment::mutable::MutableSegment;
use crate::segment::Entry;
use crate::storage::path::FsPath;
use crate::storage::{DirSet, FileMap, Fs};
use crate::storage::layout::{log_place, manifest_place, open_log};
use crate::storage::StorageBackend;
use crate::wal::{
    frame_bytes, law_append_then_replay, Op, OpView, RecordView, Wal, WalRecord, MAX_FRAME,
};

verus! {

/// How far a job is from being done: its stage, the segments to rebuild, and the steps.
pub open spec fn rank(job: Job) -> nat {
    match job.stage {
        Stage::Write => 2,
        Stage::Rebuild(_, _) => 2,
        Stage::Done => 0,
        _ => 1,
    }
}

/// Whether a job has but one stage.
pub open spec fn single(job: Job) -> bool {
    job.stage is Flush || job.stage is Compact
}

/// How many segments may still be rebuilt.
pub open spec fn worn_left(job: Job) -> int {
    match job.stage {
        Stage::Write => job.done.rebuild@.len() as int + 1,
        Stage::Rebuild(_, _) => job.done.rebuild@.len() as int - job.next,
        _ => 0,
    }
}

/// The number of the next segment once a job is done, or one above it.
pub open spec fn last_number(db: Database, job: Job) -> int {
    db.next_seg_id + (if worn_left(job) > 0 {
        worn_left(job)
    } else {
        0
    }) + (if rank(job) == 2 {
        db.collections@.len() as int
    } else {
        0
    })
}

/// Whether there are numbers left for all segments that a job may write.
pub open spec fn has_numbers(db: Database, job: Job) -> bool {
    job.stage is Done || last_number(db, job) + db.collections@.len() + 2 <= u64::MAX
}

/// Whether there are numbers left for a job, and a flush after it.
pub open spec fn flush_numbers(db: Database, job: Job) -> bool {
    last_number(db, job) + db.collections@.len() + db.collections@.len() + 2 <= u64::MAX
}

/// Whether there are numbers left for a job, and a write after it: for its record, for the
/// segments that it may rebuild, and for a flush.
pub open spec fn write_numbers(db: Database, job: Job, wal: Wal, op: OpView) -> bool {
    let n = db.collections@.len() + 1;
    let at = coll_at(db.collections@, subject(op));
    let segs = if at < db.collections@.len() {
        db.collections@[at].view.immutables@.len()
    } else {
        0
    };
    &&& last_number(db, job) + segs + 2 + n + n + 2 <= u64::MAX
    &&& wal.next() < u64::MAX
    &&& wal.at() + MAX_FRAME + 8 <= u64::MAX
}

/// Whether what an operation led to was carried through: points that are to be flushed were, to
/// new segments with the next numbers; after points were deleted, the segments that were worth it
/// were rebuilt, and no other; and nothing else changed.
pub open spec fn carried_through<N, S>(
    mid: Database,
    db: Database,
    wal: Wal,
    log: Seq<u8>,
    op: Op,
    a: Applied,
    kernel: Kernel<N, S>,
) -> bool where N: Fn(&[u32]) -> u32, S: Fn(Metric, &[u32], u32, &[u32], u32) -> u32 {
    &&& finished(mid, db, subject(op@), a, wal.next(), kernel)
    &&& if a.need_flush {
        flushed_as(mid, db, wal.next(), kernel) && all_flushed(db, wal.next()) && wal.at() == 0
            && log.len() == 0
    } else if op is Delete {
        tends_to(mid, db, subject(op@)) && none_worn(db, subject(op@))
    } else {
        db == mid
    }
}

/// Whether the steps of a job from one place up to another write segments and their indexes only.
pub open spec fn only_segments(job: Job, from: int, to: int) -> bool {
    forall|i: int|
        from <= i < to ==> (#[trigger] job.steps()[i]) is WriteSegment || job.steps()[i] is WriteIndex
}

/// Whether the manifest and the log hold the same bytes.
pub open spec fn same_record(a: FileMap, b: FileMap, root: Seq<Seq<char>>) -> bool {
    &&& file_at(a, manifest_place(root)) == file_at(b, manifest_place(root))
    &&& file_at(a, log_place(root)) == file_at(b, log_place(root))
}

/// Whether there are numbers left for a job, and compacting a collection after it, and rows can
/// be counted.
pub open spec fn compact_numbers(db: Database, job: Job) -> bool {
    &&& last_number(db, job) + 1 + db.collections@.len() + 2 <= u64::MAX
    &&& rows_countable(db)
}

/// Whether the rows of every collection can be counted.
pub open spec fn rows_countable(db: Database) -> bool {
    forall|i: int|
        0 <= i < db.collections@.len() ==> (
        #[trigger] db.collections@[i]).view.rows_total() <= u64::MAX
}

/// Whether a collection is compact: all its points are in one segment, without deleted rows and
/// new payloads; there is none where there are no points. The manifest has just this segment.
pub open spec fn is_compact(db: Database, name: Seq<char>) -> bool {
    let at = coll_at(db.collections@, name);
    let view = db.collections@[at].view;
    let entry = entry_at(db.manifest@.entries, name);
    &&& at < db.collections@.len()
    &&& view.mutable.rows().len() == 0
    &&& view.immutables@.len() == (if view.contents() == Map::<IdView, Entry>::empty() {
        0nat
    } else {
        1nat
    })
    &&& forall|j: int|
        0 <= j < view.immutables@.len() ==> (#[trigger] view.immutables@[j]).dead() == Set::<
            u32,
        >::empty() && view.immutables@[j].over() == Map::<IdView, Option<JsonView>>::empty()
    &&& entry < db.manifest@.entries.len()
    &&& db.manifest@.entries[entry].segments == numbers(view.immutables@)
}

/// Whether a job cannot go on from a state that keeps the same, for that reason: a segment
/// cannot be rebuilt, or a flush that is due cannot be planned.
pub open spec fn gets_stuck(db: Database, job: Job, e: Error) -> bool {
    rank(job) == 2 && exists|d: Database| #[trigger] keeps_same(db, d) && refuses_more(d, job, e)
}

/// Whether a segment cannot be rebuilt, or a flush that is due cannot be planned, for that
/// reason.
pub open spec fn refuses_more(db: Database, job: Job, e: Error) -> bool {
    ||| exists|si: usize| #[trigger] db.rebuild_refused(job.name@, si, e)
    ||| job.done.need_flush && db.flush_refused(e)
}

/// Whether no rows are in memory, and the manifest says that all records before `next_lsn` are
/// in segments.
pub open spec fn all_flushed(db: Database, next_lsn: u64) -> bool {
    &&& db.manifest@.last_flushed_lsn == next_lsn - 1
    &&& forall|i: int|
        0 <= i < db.collections@.len() ==> (
        #[trigger] db.collections@[i]).view.mutable.rows().len() == 0
}

/// Whether a job of a write will flush, or has done so.
spec fn flushing<N, S>(
    first: Job,
    db: Database,
    job: Job,
    next_lsn: u64,
    kernel: Kernel<N, S>,
    empty: bool,
) -> bool where N: Fn(&[u32]) -> u32, S: Fn(Metric, &[u32], u32, &[u32], u32) -> u32 {
    match job.stage {
        Stage::Write => job.done == first.done,
        Stage::Rebuild(_, _) => job.done == first.done,
        Stage::Flush(plan) => exists|d: Database| #[trigger]
            d.flush_planned(plan, next_lsn, kernel) && d.only_numbers(db),
        Stage::Compact(_) => false,
        Stage::Done => all_flushed(db, next_lsn) && empty,
    }
}

/// Whether a job of deleting points still has its turn to rebuild segments, or has done so.
spec fn mending(first: Job, db: Database, job: Job) -> bool {
    if rank(job) == 2 {
        job.name == first.name && job.done == first.done && job.tends(db)
    } else {
        job.stage is Done && none_worn(db, first.name@)
    }
}

/// Which segment is next is one from the given place on.
proof fn lemma_next_worn(db: Database, name: Seq<char>, list: Seq<usize>, i: int)
    requires
        0 <= i,
    ensures
        next_worn(db, name, list, i) >= i || next_worn(db, name, list, i) == list.len(),
        next_worn(db, name, list, i) <= list.len(),
    decreases list.len() - i,
{
    if i < list.len() {
        lemma_next_worn(db, name, list, i + 1);
    }
}

impl<E, D, ME, MD, SE, SD, OE> Format<E, D, ME, MD, SE, SD, OE> where
    E: Fn(&WalRecord) -> Result<Vec<u8>, String>,
    D: Fn(&[u8]) -> Result<WalRecord, String>,
    ME: Fn(&Manifest) -> Result<Vec<u8>, String>,
    MD: Fn(&[u8]) -> Result<Manifest, String>,
    SE: Fn(&SegmentParts) -> Result<SegmentFiles, String>,
    SD: Fn(&SegmentFiles) -> Result<SegmentParts, Error>,
    OE: Fn(&Vec<(ExternalId, Option<Json>)>) -> Result<Vec<Vec<u8>>, String>,
 {
    /// Whether files hold everything that a database keeps. The log goes to byte `n`, and
    /// `next_lsn` is the number of its next record.
    pub open spec fn safe(
        &self,
        files: FileMap,
        root: Seq<Seq<char>>,
        n: int,
        db: Database,
        next_lsn: u64,
    ) -> bool {
        exists|disk: Disk| #[trigger] self.holds(files, root, n, disk) && durable(db, disk, next_lsn)
    }

    /// Whether files hold what a job has stored so far, of what started as `base`. Where the log
    /// is to be emptied, it may be empty already.
    pub open spec fn course_from(
        &self,
        files: FileMap,
        root: Seq<Seq<char>>,
        n: int,
        db: Database,
        job: Job,
        next_lsn: u64,
        base: Disk,
        disk: Disk,
    ) -> bool {
        &&& job.started(db, base, disk, next_lsn)
        &&& fresh(base, job.steps(), job.at as int)
        &&& self.holds(files, root, n, disk) || (job.at < job.steps().len()
            && job.steps()[job.at as int] is ResetLog && self.holds(
            files,
            root,
            n,
            disk.performed(job.steps()[job.at as int]),
        ))
    }

    /// Whether files hold what a job has stored so far, so that it can be carried on.
    pub open spec fn on_way(
        &self,
        files: FileMap,
        root: Seq<Seq<char>>,
        n: int,
        db: Database,
        job: Job,
        next_lsn: u64,
    ) -> bool {
        exists|base: Disk, disk: Disk| #[trigger]
            self.course_from(files, root, n, db, job, next_lsn, base, disk)
    }

    /// Why carrying out a job may fail.
    pub open spec fn may_fail(&self, db: Database, job: Job, e: Error) -> bool {
        ||| e is Io
        ||| e matches Error::Serde(text) && exists|step: Step| #[trigger]
            self.cannot_encode(step, text)
        ||| e == Error::Invalid(Invalid::NumbersUsedUp) && !has_numbers(db, job)
        ||| gets_stuck(db, job, e)
    }

    /// Why flushing may fail: the work that is still to be done cannot be, no numbers are left,
    /// or the flush is refused.
    pub open spec fn flush_fails(&self, db: Database, job: Job, e: Error) -> bool {
        ||| self.may_fail(db, job, e)
        ||| e == Error::Invalid(Invalid::NumbersUsedUp) && !flush_numbers(db, job)
        ||| exists|d: Database| #[trigger]
            keeps_same(db, d) && (job.stage is Done ==> d == db) && d.flush_refused(e)
    }

    /// Why compacting may fail: the work that is still to be done cannot be, no numbers are left,
    /// or compacting is refused.
    pub open spec fn compact_fails(
        &self,
        db: Database,
        job: Job,
        name: Seq<char>,
        e: Error,
    ) -> bool {
        ||| self.may_fail(db, job, e)
        ||| e == Error::Invalid(Invalid::NumbersUsedUp) && !compact_numbers(db, job)
        ||| exists|d: Database| #[trigger]
            keeps_same(db, d) && (job.stage is Done ==> d == db) && d.compact_refused(name, e)
    }

    /// Why a write may fail before it is logged: the work that is still to be done cannot be, no
    /// numbers are left, the operation is refused, or its record cannot be turned into bytes.
    pub open spec fn unlogged(
        &self,
        db: Database,
        job: Job,
        wal: Wal,
        op: Op,
        e: Error,
    ) -> bool {
        ||| self.may_fail(db, job, e)
        ||| e == Error::Invalid(Invalid::NumbersUsedUp) && !write_numbers(db, job, wal, op@)
        ||| exists|d: Database| #[trigger]
            keeps_same(db, d) && (job.stage is Done ==> d == db) && d.refuses(op, e)
        ||| self.unwritten(wal, op@, e)
    }

    /// Whether the record of an operation can be turned into bytes that are not too long.
    pub open spec fn can_log(&self, wal: Wal, op: OpView) -> bool {
        self.records.encoded(RecordView { lsn: wal.next(), op }) matches Ok(body) && body.len()
            <= MAX_FRAME && wal.at() + 8 + body.len() <= usize::MAX
    }

    /// Why the record of an operation may not be logged.
    pub open spec fn unwritten(&self, wal: Wal, op: OpView, e: Error) -> bool {
        let rec = RecordView { lsn: wal.next(), op };
        ||| e is Io
        ||| e matches Error::Serde(text) && self.records.encoded(rec) == Err::<
            Seq<u8>,
            Seq<char>,
        >(text@)
        ||| e matches Error::Invalid(Invalid::RecordTooLarge(n)) && (self.records.encoded(
            rec,
        ) matches Ok(body) && body.len() > MAX_FRAME && n == body.len() as usize)
    }

    /// Why what follows from a write may fail once it was logged and applied: something cannot be
    /// stored, no numbers are left, or a state that keeps the same refuses to go on.
    pub open spec fn unfinished(&self, now: Database, op: Op, numbers: bool, e: Error) -> bool {
        ||| e is Io
        ||| e matches Error::Serde(text) && exists|step: Step| #[trigger]
            self.cannot_encode(step, text)
        ||| e == Error::Invalid(Invalid::NumbersUsedUp) && !numbers
        ||| exists|d: Database| #[trigger]
            keeps_same(now, d) && ((exists|si: usize| #[trigger]
                d.rebuild_refused(subject(op@), si, e)) || d.flush_refused(e))
    }

    /// Whether nothing stands in the way of a write: neither of the work that is still to be
    /// done, nor of what follows; numbers are left, the collection is there and has space for the
    /// points, and the record can be turned into bytes that are not too long.
    pub open spec fn can_write<F: Fs>(
        &self,
        fs: F,
        root: Seq<Seq<char>>,
        wal: Wal,
        db: Database,
        job: Job,
        op: Op,
    ) -> bool {
        &&& self.can_finish(fs, root, wal, db, job)
        &&& write_numbers(db, job, wal, op@)
        &&& needs_collection(op@) ==> coll_at(db.collections@, subject(op@))
            < db.collections@.len()
        &&& spacious(db, points_in(op@))
        &&& self.can_log(wal, op@)
    }

    /// Whether nothing stands in the way of a job: storage is reliable and has room, the files
    /// hold what was stored so far, everything can be turned into bytes and back, numbers are
    /// left, and there are not too many rows.
    pub open spec fn can_finish<F: Fs>(
        &self,
        fs: F,
        root: Seq<Seq<char>>,
        wal: Wal,
        db: Database,
        job: Job,
    ) -> bool {
        &&& self.faithful()
        &&& self.encodes_all()
        &&& self.on_way(fs.files(), root, wal.at() as int, db, job, wal.next())
        &&& fs.reliable()
        &&& roomy(fs.files(), fs.dirs(), root)
        &&& has_numbers(db, job)
        &&& spacious(db, 0)
    }

    /// Where no segment has a directory that the manifest does not have, and what the database
    /// keeps is stored, exactly the segments that it has in memory have a directory.
    pub proof fn law_directories_are_those_of_the_segments(
        &self,
        files: FileMap,
        dirs: DirSet,
        root: Seq<Seq<char>>,
        n: int,
        db: Database,
        next_lsn: u64,
    )
        requires
            self.safe(files, root, n, db, next_lsn),
            laid_out(files, dirs, root),
            swept(dirs, root, db.manifest@),
        ensures
            matched(dirs, root, db.manifest@),
            forall|i: int, j: int| #[trigger]
                has_seg(db, i, j) ==> standing(dirs, root).contains(seg_number(db, i, j)),
            forall|id: u64| #[trigger]
                standing(dirs, root).contains(id) ==> exists|i: int, j: int| #[trigger]
                    has_seg(db, i, j) && seg_number(db, i, j) == id,
            numbered(db),
    {
        let disk = choose|disk: Disk| #[trigger]
            self.holds(files, root, n, disk) && durable(db, disk, next_lsn);
        let entries = db.manifest@.entries;
        assert forall|id: u64| #[trigger] references(entries, id) implies standing(
            dirs,
            root,
        ).contains(id) && exists|i: int, j: int| #[trigger]
            has_seg(db, i, j) && seg_number(db, i, j) == id by {
            let x = choose|x: int|
                0 <= x < entries.len() && (#[trigger] entries[x]).segments.contains(id);
            let y = choose|y: int| 0 <= y < entries[x].segments.len() && entries[x].segments[y]
                == id;
            assert(has_num(entries, x, y));
            self.lemma_segment_held(files, root, n, disk, id);
            lemma_home(files, dirs, root, id, Part::Meta);
            lemma_entry_stored(db, disk, x);
            assert(has_seg(db, coll_at(db.collections@, entries[x].name), y));
        }
        assert(standing(dirs, root) =~= listed(db.manifest@));
        assert forall|i: int, j: int| #[trigger] has_seg(db, i, j) implies standing(
            dirs,
            root,
        ).contains(seg_number(db, i, j)) by {
            let c = db.collections@[i];
            let at = entry_at(entries, c.name@);
            assert(is_stored(disk, c));
            lemma_entry_from(entries, c.name@, 0);
            assert(entries[at].segments[j] == seg_number(db, i, j));
            assert(references(entries, seg_number(db, i, j)));
        }
        assert forall|id: u64| #[trigger] standing(dirs, root).contains(id) implies exists|
            i: int,
            j: int,
        | #[trigger] has_seg(db, i, j) && seg_number(db, i, j) == id by {
            assert(references(entries, id));
        }
    }

    /// Whenever a job is cut short, the files hold what gives back what the database keeps: it
    /// hangs together, every record in the log finds its collection, and replaying the log comes
    /// to what was kept.
    pub proof fn law_files_give_back(
        &self,
        files: FileMap,
        root: Seq<Seq<char>>,
        n: int,
        db: Database,
        job: Job,
        next_lsn: u64,
    )
        requires
            self.on_way(files, root, n, db, job, next_lsn),
        ensures
            exists|disk: Disk| #[trigger] self.holds(files, root, n, disk) && gives_back(disk, db),
    {
        let (base, disk) = choose|base: Disk, disk: Disk| #[trigger]
            self.course_from(files, root, n, db, job, next_lsn, base, disk);
        let steps = job.steps();
        let k = job.at as int;
        assert(gives_back(reach(base, steps, k), db));
        if !self.holds(files, root, n, disk) {
            assert(steps.take(k + 1).drop_last() =~= steps.take(k));
            assert(steps.take(k + 1).last() == steps[k]);
            assert(gives_back(reach(base, steps, k + 1), db));
            assert(self.holds(files, root, n, disk.performed(steps[k])));
        }
    }

    /// A job that is done leaves everything stored.
    proof fn lemma_done_safe(
        &self,
        files: FileMap,
        root: Seq<Seq<char>>,
        n: int,
        db: Database,
        job: Job,
        next_lsn: u64,
    )
        requires
            self.on_way(files, root, n, db, job, next_lsn),
            db.valid(),
            job.stage is Done,
        ensures
            self.safe(files, root, n, db, next_lsn),
    {
        let (base, disk) = choose|base: Disk, disk: Disk| #[trigger]
            self.course_from(files, root, n, db, job, next_lsn, base, disk);
        assert(job.on_course(db, disk, next_lsn));
        law_done_is_durable(job, db, disk, next_lsn);
    }

    /// Files that hold what is stored hold it without segments whose numbers are to come.
    pub proof fn lemma_holds_trimmed(
        &self,
        files: FileMap,
        root: Seq<Seq<char>>,
        n: int,
        disk: Disk,
        id: u64,
    )
        requires
            self.holds(files, root, n, disk),
        ensures
            self.holds(files, root, n, trimmed(disk, id)),
    {
        let d = self.disk_of(files, root, n)->0;
        let less = trimmed(disk, id);
        assert forall|x: u64| #[trigger] less.segs.contains_key(x) implies d.segs.contains_key(x)
            && d.segs[x] == less.segs[x] by {
            assert(disk.segs.contains_key(x));
        }
    }

    /// Where everything that a database keeps is stored, work can go on from a job that has nothing
    /// to do.
    pub proof fn law_stored_goes_on(
        &self,
        files: FileMap,
        root: Seq<Seq<char>>,
        n: int,
        db: Database,
        job: Job,
        next_lsn: u64,
    )
        requires
            self.safe(files, root, n, db, next_lsn),
            job.stage is Done,
            job.at == 0,
        ensures
            self.on_way(files, root, n, db, job, next_lsn),
            job.fits(db),
            has_numbers(db, job),
    {
        let disk = choose|disk: Disk| #[trigger]
            self.holds(files, root, n, disk) && durable(db, disk, next_lsn);
        lemma_done(db, job);
        self.lemma_idle(files, root, n, db, job, next_lsn, disk);
    }

    /// A job that has nothing to do is on its way where everything is stored.
    proof fn lemma_idle(
        &self,
        files: FileMap,
        root: Seq<Seq<char>>,
        n: int,
        db: Database,
        job: Job,
        next_lsn: u64,
        disk: Disk,
    )
        requires
            self.holds(files, root, n, disk),
            durable(db, disk, next_lsn),
            job.stage is Done,
            job.at == 0,
        ensures
            self.on_way(files, root, n, db, job, next_lsn),
    {
        lemma_done(db, job);
        assert(job.started(db, disk, disk, next_lsn));
        assert(self.course_from(files, root, n, db, job, next_lsn, disk, disk));
    }

    /// A job that went on to its next stage is on its way.
    pub proof fn lemma_led<N, S>(
        &self,
        files: FileMap,
        root: Seq<Seq<char>>,
        n: int,
        first: Job,
        mid: Database,
        after: Database,
        job: Job,
        next_lsn: u64,
        kernel: Kernel<N, S>,
        disk: Disk,
    ) where N: Fn(&[u32]) -> u32, S: Fn(Metric, &[u32], u32, &[u32], u32) -> u32
        requires
            first.leads(mid, after, job, next_lsn, kernel),
            self.holds(files, root, n, disk),
            durable(mid, disk, next_lsn),
            next_lsn > 0,
            mid.next_seg_id + mid.collections@.len() <= u64::MAX,
        ensures
            self.on_way(files, root, n, after, job, next_lsn),
    {
        let t = trimmed(disk, mid.next_seg_id);
        lemma_trimmed(mid, disk, next_lsn);
        self.lemma_holds_trimmed(files, root, n, disk, mid.next_seg_id);
        match job.stage {
            Stage::Rebuild(si, plan) => {
                let m = choose|m: MutableSegment| #[trigger]
                    mid.rebuild_planned(first.name@, si, plan, kernel, m);
                lemma_rebuild_starts(mid, after, job, si, plan, kernel, m);
                let seg = mid.collections@[plan.at as int].view.immutables@[si as int];
                lemma_renew_fresh(
                    disk,
                    plan.steps@,
                    plan.seg,
                    mid.next_seg_id,
                    m,
                    plan.manifest@,
                    seq![seg.number()],
                );
                assert(job.started(after, t, t, next_lsn));
                assert(self.course_from(files, root, n, after, job, next_lsn, t, t));
            },
            Stage::Flush(plan) => {
                lemma_flush_starts(mid, after, job, plan, next_lsn, kernel);
                lemma_flush_fresh(mid, disk, plan, next_lsn, kernel);
                assert(job.started(after, t, t, next_lsn));
                assert(self.course_from(files, root, n, after, job, next_lsn, t, t));
            },
            _ => {
                self.lemma_idle(files, root, n, after, job, next_lsn, disk);
            },
        }
    }

    /// Carries out a job. Where this fails, the job can be carried on later: the files hold what
    /// was stored so far, and what the database keeps is the same. It does not fail where nothing
    /// stands in the way.
    #[verifier::rlimit(60)]
    pub fn carry_out<F: Fs, N, S>(
        &self,
        fs: &mut F,
        root: &FsPath,
        db: &mut Database,
        wal: &mut Wal,
        job: &mut Job,
        kernel: &Kernel<N, S>,
    ) -> (r: Result<(), Error>) where
        N: Fn(&[u32]) -> u32,
        S: Fn(Metric, &[u32], u32, &[u32], u32) -> u32,

        requires
            old(fs).sound(),
            self.valid(),
            kernel.valid(),
            old(job).fits(*old(db)),
            old(wal).next() > 0,
        ensures
            final(fs).sound(),
            final(db).valid(),
            final(job).fits(*final(db)),
            final(wal).next() == old(wal).next(),
            keeps_same(*old(db), *final(db)),
            old(db).apart() ==> final(db).apart(),
            r is Ok ==> final(job).stage is Done,
            r is Ok && single(*old(job)) ==> old(job).closes(*old(db), *final(db)),
            r is Ok && single(*old(job)) && old(job).steps().last() is ResetLog ==> final(wal).at()
                == 0 && log_bytes(final(fs).files(), root@).len() == 0,
            r is Ok && rank(*old(job)) == 2 && old(job).done.need_flush ==> all_flushed(
                *final(db),
                final(wal).next(),
            ) && final(wal).at() == 0 && log_bytes(final(fs).files(), root@).len() == 0,
            r is Ok && rank(*old(job)) == 2 && !old(job).done.need_flush && old(job).tends(*old(db))
                ==> none_worn(*final(db), old(job).name@),
            r is Ok ==> forall|mid: Database, name: Seq<char>, a: Applied| #[trigger]
                tracks(mid, name, a, *old(db), *old(job), old(wal).next(), *kernel) ==> finished(
                    mid,
                    *final(db),
                    name,
                    a,
                    final(wal).next(),
                    *kernel,
                ),
            r is Err && single(*old(job)) ==> final(job).stage == old(job).stage && *final(db)
                == *old(db) && old(job).at <= final(job).at < old(job).steps().len(),
            r is Err && single(*old(job)) && only_segments(
                *old(job),
                old(job).at as int,
                final(job).at as int,
            ) && !(old(job).steps()[final(job).at as int] is ResetLog) ==> *final(wal) == *old(wal)
                && same_record(old(fs).files(), final(fs).files(), root@),
            old(fs).reliable() ==> final(fs).reliable(),
            old(job).stage is Done ==> r is Ok && *final(fs) == *old(fs) && *final(db) == *old(db)
                && *final(wal) == *old(wal) && *final(job) == *old(job),
            r matches Err(e) ==> self.may_fail(*old(db), *old(job), e),
            self.can_finish(*old(fs), root@, *old(wal), *old(db), *old(job)) ==> r is Ok,
            final(db).options == old(db).options,
            r is Ok ==> final(db).next_seg_id <= last_number(*old(db), *old(job)),
            same_roster(*old(db), *final(db), 1),
            final(wal).at() <= old(wal).at(),
            r is Ok && log_whole(old(fs).files(), root@, *old(wal)) ==> log_whole(
                final(fs).files(),
                root@,
                *final(wal),
            ),
            forall|more: nat| #[trigger]
                spacious(*old(db), more) ==> spacious(*final(db), more),
            self.faithful() && self.on_way(
                old(fs).files(),
                root@,
                old(wal).at() as int,
                *old(db),
                *old(job),
                old(wal).next(),
            ) ==> self.on_way(
                final(fs).files(),
                root@,
                final(wal).at() as int,
                *final(db),
                *final(job),
                final(wal).next(),
            ) && (r is Ok ==> self.safe(
                final(fs).files(),
                root@,
                final(wal).at() as int,
                *final(db),
                final(wal).next(),
            )) && (old(fs).reliable() && roomy(old(fs).files(), old(fs).dirs(), root@)
                ==> !(r is Err && r->Err_0 is Io) && roomy(
                final(fs).files(),
                final(fs).dirs(),
                root@,
            ) && (clears(standing(old(fs).dirs(), root@), *old(db), *old(job)) ==> clears(
                standing(final(fs).dirs(), root@),
                *final(db),
                *final(job),
            ) && (r is Ok ==> matched(final(fs).dirs(), root@, final(db).manifest@)))) && (spacious(
                *old(db),
                0,
            ) ==> (r matches Err(e) ==> !gets_stuck_by(e))),
    {
        let ghost start = *db;
        let ghost next = wal.next();
        let ghost minded = self.faithful() && self.on_way(
            fs.files(),
            root@,
            wal.at() as int,
            *db,
            *job,
            next,
        );
        let ghost able = minded && fs.reliable() && roomy(fs.files(), fs.dirs(), root@);
        loop
            invariant
                fs.sound(),
                self.valid(),
                kernel.valid(),
                job.fits(*db),
                wal.next() == next,
                wal.at() <= old(wal).at(),
                log_whole(old(fs).files(), root@, *old(wal)) ==> log_whole(fs.files(), root@, *wal),
                next == old(wal).next(),
                next > 0,
                start == *old(db),
                keeps_same(start, *db),
                start.apart() ==> db.apart(),
                single(*old(job)) ==> (job.stage == old(job).stage && *db == start) || (
                job.stage is Done && old(job).closes(start, *db) && (
                old(job).steps().last() is ResetLog ==> wal.at() == 0 && log_bytes(
                    fs.files(),
                    root@,
                ).len() == 0)),
                old(fs).reliable() ==> fs.reliable(),
                minded == (self.faithful() && self.on_way(
                    old(fs).files(),
                    root@,
                    old(wal).at() as int,
                    *old(db),
                    *old(job),
                    old(wal).next(),
                )),
                minded ==> self.on_way(fs.files(), root@, wal.at() as int, *db, *job, next),
                able == (minded && old(fs).reliable() && roomy(
                    old(fs).files(),
                    old(fs).dirs(),
                    root@,
                )),
                able ==> fs.reliable() && roomy(fs.files(), fs.dirs(), root@),
                able && clears(standing(old(fs).dirs(), root@), start, *old(job)) ==> clears(
                    standing(fs.dirs(), root@),
                    *db,
                    *job,
                ),
                forall|more: nat| #[trigger] spacious(start, more) ==> spacious(*db, more),
                has_numbers(start, *old(job)) ==> has_numbers(*db, *job),
                last_number(*db, *job) <= last_number(start, *old(job)),
                db.options == start.options,
                same_roster(
                    start,
                    *db,
                    if job.stage is Done {
                        1int
                    } else {
                        0int
                    },
                ),
                old(job).stage is Done ==> *fs == *old(fs) && *db == start && *wal == *old(wal)
                    && *job == *old(job),
                rank(*job) == 2 ==> rank(*old(job)) == 2 && job.name == old(job).name && job.done
                    == old(job).done,
                rank(*old(job)) == 2 && old(job).done.need_flush ==> flushing(
                    *old(job),
                    *db,
                    *job,
                    next,
                    *kernel,
                    wal.at() == 0 && log_bytes(fs.files(), root@).len() == 0,
                ),
                rank(*old(job)) == 2 && !old(job).done.need_flush && old(job).tends(start)
                    ==> mending(*old(job), *db, *job),
                forall|mid: Database, name: Seq<char>, a: Applied| #[trigger]
                    tracks(mid, name, a, start, *old(job), next, *kernel) ==> tracks(
                        mid,
                        name,
                        a,
                        *db,
                        *job,
                        next,
                        *kernel,
                    ),
                single(*old(job)) && !(job.stage is Done) ==> old(job).at <= job.at
                    <= old(job).steps().len() && (only_segments(
                    *old(job),
                    old(job).at as int,
                    job.at as int,
                ) ==> *wal == *old(wal) && same_record(old(fs).files(), fs.files(), root@)),
            decreases rank(*job), worn_left(*job), job.steps().len() - job.at,
        {
            let ghost first = *job;
            let ghost before = *db;
            let ghost steps = job.steps();
            if db.next_seg_id > u64::MAX - 2 || (db.collections.len() as u64) > u64::MAX - 2
                - db.next_seg_id {
                return match job.step() {
                    None => {
                        proof {
                            lemma_clears_done(standing(fs.dirs(), root@), *db, *job);
                            if minded {
                                self.lemma_done_safe(
                                    fs.files(),
                                    root@,
                                    wal.at() as int,
                                    *db,
                                    *job,
                                    next,
                                );
                                if able && swept(fs.dirs(), root@, db.manifest@) {
                                    self.law_directories_are_those_of_the_segments(
                                        fs.files(),
                                        fs.dirs(),
                                        root@,
                                        wal.at() as int,
                                        *db,
                                        next,
                                    );
                                }
                            }
                        }
                        Ok(())
                    },
                    Some(_) => Err(Error::Invalid(Invalid::NumbersUsedUp)),
                };
            }
            let ghost files = fs.files();
            let ghost n = wal.at() as int;
            let ghost ids = standing(fs.dirs(), root@);
            let len: usize = job.len();
            match job.step() {
                None => {
                    proof {
                        lemma_clears_done(ids, *db, *job);
                        if minded {
                            self.lemma_done_safe(files, root@, n, *db, *job, next);
                            if able && swept(fs.dirs(), root@, db.manifest@) {
                                self.law_directories_are_those_of_the_segments(
                                    files,
                                    fs.dirs(),
                                    root@,
                                    n,
                                    *db,
                                    next,
                                );
                            }
                        }
                    }
                    return Ok(());
                },
                Some(step) => {
                    proof {
                        if able {
                            self.lemma_can_step(
                                files,
                                fs.dirs(),
                                root@,
                                n,
                                *db,
                                *job,
                                next,
                            );
                        }
                    }
                    match self.perform(fs, root, wal, step) {
                        Ok(_) => {},
                        Err(e) => {
                            proof {
                                if e is Serde {
                                    assert(self.cannot_encode(*step, e->Serde_0));
                                }
                                if minded {
                                    self.lemma_failed(
                                        files,
                                        fs.files(),
                                        root@,
                                        n,
                                        wal.at() as int,
                                        *db,
                                        *job,
                                        next,
                                    );
                                }
                            }
                            return Err(e);
                        },
                    }
                },
            }
            let ghost now = fs.files();
            let ghost m = wal.at() as int;
            proof {
                if minded {
                    self.lemma_performed(files, now, root@, n, m, *db, *job, next);
                }
            }
            match db.proceed(job, wal.next_lsn(), kernel) {
                Ok(_) => {
                    proof {
                        self.lemma_went_on(
                            now,
                            root@,
                            m,
                            start,
                            before,
                            first,
                            *db,
                            *job,
                            next,
                            *kernel,
                            minded,
                        );
                        if able && clears(ids, before, first) {
                            self.lemma_clears_on(
                                now,
                                root@,
                                m,
                                before,
                                first,
                                *db,
                                *job,
                                next,
                                *kernel,
                                ids,
                            );
                        }
                        assert forall|x: Database, name: Seq<char>, a: Applied| #[trigger]
                            tracks(x, name, a, start, *old(job), next, *kernel) implies tracks(
                            x,
                            name,
                            a,
                            *db,
                            *job,
                            next,
                            *kernel,
                        ) by {
                            lemma_tracks(x, name, a, before, first, *db, *job, next, *kernel);
                        }
                        if single(*old(job)) && !(job.stage is Done) && only_segments(
                            *old(job),
                            old(job).at as int,
                            job.at as int,
                        ) {
                            let k = first.at as int;
                            assert(old(job).steps()[k] is WriteSegment
                                || old(job).steps()[k] is WriteIndex);
                            assert(only_segments(*old(job), old(job).at as int, k));
                        }
                        lemma_goes_on(
                            *old(job),
                            start,
                            before,
                            first,
                            *db,
                            *job,
                            next,
                            *kernel,
                            wal.at() == 0 && log_bytes(now, root@).len() == 0,
                        );
                    }
                },
                Err(e) => {
                    *job = idle("");
                    proof {
                        lemma_done(*db, *job);
                        lemma_sticks(*old(job), start, before, first, *db, e);
                        if able && clears(ids, before, first) {
                            let mid = choose|mid: Database| #[trigger]
                                first.closes(before, mid) && first.halts(mid, *db, e);
                            lemma_clears_closed(ids, before, first, mid);
                            lemma_clears_done(standing(fs.dirs(), root@), *db, *job);
                        }
                        self.lemma_halted(
                            now,
                            root@,
                            m,
                            start,
                            before,
                            first,
                            *db,
                            *job,
                            next,
                            minded,
                            e,
                        );
                    }
                    return Err(e);
                },
            }
        }
    }

    /// What is stored where a job cannot go on.
    proof fn lemma_halted(
        &self,
        now: FileMap,
        root: Seq<Seq<char>>,
        m: int,
        start: Database,
        before: Database,
        first: Job,
        db: Database,
        job: Job,
        next: u64,
        minded: bool,
        e: Error,
    )
        requires
            keeps_same(start, before),
            first.at < first.steps().len(),
            exists|mid: Database| #[trigger]
                first.closes(before, mid) && first.halts(mid, db, e),
            job.stage is Done,
            job.at == 0,
            minded ==> exists|base: Disk, disk: Disk|
                first.started(before, base, disk, next) && fresh(
                    base,
                    first.steps(),
                    first.at as int,
                ) && #[trigger] self.stepped(now, root, m, first, base, disk),
            forall|disk: Disk| #[trigger]
                first.on_course(before, disk, next) ==> durable(
                    db,
                    disk.performed(first.steps()[first.at as int]),
                    next,
                ),
        ensures
            keeps_same(start, db),
            before.apart() ==> db.apart(),
            minded ==> self.on_way(now, root, m, db, job, next),
            !(minded && spacious(before, 0) && first.fits(before)),
    {
        let mid = choose|mid: Database| #[trigger]
            first.closes(before, mid) && first.halts(mid, db, e);
        lemma_keeps_on(start, before, mid, db);
        if minded {
            let (base, disk) = choose|base: Disk, disk: Disk|
                first.started(before, base, disk, next) && fresh(
                    base,
                    first.steps(),
                    first.at as int,
                ) && #[trigger] self.stepped(now, root, m, first, base, disk);
            assert(first.on_course(before, disk, next));
            lemma_enlisted(db, disk.performed(first.steps()[first.at as int]), next);
            if spacious(before, 0) && first.fits(before) {
                lemma_never_sticks(first, before, mid, db, e);
            }
            self.lemma_idle(
                now,
                root,
                m,
                db,
                job,
                next,
                disk.performed(first.steps()[first.at as int]),
            );
        }
    }

    /// A job that goes on leaves no directory that the manifest does not have.
    proof fn lemma_clears_on<N, S>(
        &self,
        now: FileMap,
        root: Seq<Seq<char>>,
        m: int,
        before: Database,
        first: Job,
        db: Database,
        job: Job,
        next: u64,
        kernel: Kernel<N, S>,
        ids: Set<u64>,
    ) where N: Fn(&[u32]) -> u32, S: Fn(Metric, &[u32], u32, &[u32], u32) -> u32
        requires
            before.next_seg_id + before.collections@.len() <= u64::MAX,
            first.closable(before),
            first.at < first.steps().len() <= usize::MAX,
            first.at + 1 < first.steps().len() ==> db == before && job == (Job {
                at: (first.at + 1) as usize,
                ..first
            }),
            first.at + 1 == first.steps().len() ==> exists|mid: Database| #[trigger]
                first.closes(before, mid) && first.leads(mid, db, job, next, kernel),
            exists|base: Disk, disk: Disk|
                first.started(before, base, disk, next) && fresh(
                    base,
                    first.steps(),
                    first.at as int,
                ) && #[trigger] self.stepped(now, root, m, first, base, disk),
            clears(ids, before, first),
        ensures
            clears(standing_after(ids, first.steps()[first.at as int]), db, job),
    {
        let steps = first.steps();
        lemma_clears_step(ids, steps, first.at as int);
        if first.at + 1 < steps.len() {
            assert(job.steps() == steps);
        } else {
            let mid = choose|mid: Database| #[trigger]
                first.closes(before, mid) && first.leads(mid, db, job, next, kernel);
            let (base, disk) = choose|base: Disk, disk: Disk|
                first.started(before, base, disk, next) && fresh(base, steps, first.at as int)
                    && #[trigger] self.stepped(now, root, m, first, base, disk);
            lemma_closing(first, before, base, disk, next, mid);
            lemma_enlisted(mid, disk.performed(steps[first.at as int]), next);
            lemma_clears_closed(ids, before, first, mid);
            lemma_closes_roster(first, before, mid);
            lemma_closes_options(first, before, mid);
            lemma_lead_clears(
                mid,
                first,
                db,
                job,
                next,
                kernel,
                standing_after(ids, steps[first.at as int]),
            );
        }
    }

    /// The next step of a job can be taken where there is room.
    proof fn lemma_can_step(
        &self,
        files: FileMap,
        dirs: DirSet,
        root: Seq<Seq<char>>,
        n: int,
        db: Database,
        job: Job,
        next_lsn: u64,
    )
        requires
            self.on_way(files, root, n, db, job, next_lsn),
            job.at < job.steps().len(),
            roomy(files, dirs, root),
        ensures
            at_home(dirs, root, job.steps()[job.at as int]),
    {
        let (base, disk) = choose|base: Disk, disk: Disk| #[trigger]
            self.course_from(files, root, n, db, job, next_lsn, base, disk);
        let step = job.steps()[job.at as int];
        assert(can_take(reach(base, job.steps(), job.at as int), step));
        if self.holds(files, root, n, disk) {
            self.lemma_at_home(files, dirs, root, n, disk, step);
        }
    }

    /// What is stored where a job goes on.
    proof fn lemma_went_on<N, S>(
        &self,
        now: FileMap,
        root: Seq<Seq<char>>,
        m: int,
        start: Database,
        before: Database,
        first: Job,
        db: Database,
        job: Job,
        next: u64,
        kernel: Kernel<N, S>,
        minded: bool,
    ) where N: Fn(&[u32]) -> u32, S: Fn(Metric, &[u32], u32, &[u32], u32) -> u32
        requires
            keeps_same(start, before),
            next > 0,
            first.closable(before),
            before.next_seg_id + before.collections@.len() <= u64::MAX,
            first.at < first.steps().len() <= usize::MAX,
            first.at + 1 < first.steps().len() ==> db == before && job == (Job {
                at: (first.at + 1) as usize,
                ..first
            }),
            first.at + 1 == first.steps().len() ==> exists|mid: Database| #[trigger]
                first.closes(before, mid) && first.leads(mid, db, job, next, kernel),
            minded ==> exists|base: Disk, disk: Disk|
                first.started(before, base, disk, next) && fresh(
                    base,
                    first.steps(),
                    first.at as int,
                ) && #[trigger] self.stepped(now, root, m, first, base, disk),
        ensures
            keeps_same(start, db),
            before.apart() ==> db.apart(),
            minded ==> self.on_way(now, root, m, db, job, next),
            rank(job) < rank(first) || (rank(job) == rank(first) && 0 <= worn_left(job)
                < worn_left(first)) || (rank(job) == rank(first) && worn_left(job) == worn_left(
                first,
            ) && 0 <= job.steps().len() - job.at < first.steps().len() - first.at),
    {
        let steps = first.steps();
        if first.at + 1 < steps.len() {
            if minded {
                let (base, disk) = choose|base: Disk, disk: Disk|
                    first.started(before, base, disk, next) && fresh(base, steps, first.at as int)
                        && #[trigger] self.stepped(now, root, m, first, base, disk);
                lemma_step_started(first, job, before, base, disk, next);
                assert(self.course_from(
                    now,
                    root,
                    m,
                    db,
                    job,
                    next,
                    base,
                    disk.performed(steps[first.at as int]),
                ));
            }
        } else {
            let mid = choose|mid: Database| #[trigger]
                first.closes(before, mid) && first.leads(mid, db, job, next, kernel);
            lemma_keeps_on(start, before, mid, db);
            lemma_next_worn(mid, first.name@, first.done.rebuild@, first.next as int);
            if minded {
                let (base, disk) = choose|base: Disk, disk: Disk|
                    first.started(before, base, disk, next) && fresh(base, steps, first.at as int)
                        && #[trigger] self.stepped(now, root, m, first, base, disk);
                lemma_closing(first, before, base, disk, next, mid);
                assert(mid.next_seg_id == before.next_seg_id);
                assert(mid.collections@.len() == before.collections@.len());
                self.lemma_led(
                    now,
                    root,
                    m,
                    first,
                    mid,
                    db,
                    job,
                    next,
                    kernel,
                    disk.performed(steps[first.at as int]),
                );
            }
        }
    }

    /// Whether files hold what a job has stored once its next step was performed.
    spec fn stepped(
        &self,
        files: FileMap,
        root: Seq<Seq<char>>,
        n: int,
        job: Job,
        base: Disk,
        disk: Disk,
    ) -> bool {
        disk == reach(base, job.steps(), job.at as int) && self.holds(
            files,
            root,
            n,
            disk.performed(job.steps()[job.at as int]),
        )
    }

    /// What a step that was performed leaves.
    proof fn lemma_performed(
        &self,
        a: FileMap,
        b: FileMap,
        root: Seq<Seq<char>>,
        n: int,
        m: int,
        db: Database,
        job: Job,
        next_lsn: u64,
    )
        requires
            self.on_way(a, root, n, db, job, next_lsn),
            job.at < job.steps().len(),
            forall|disk: Disk| #[trigger]
                self.holds(a, root, n, disk) && can_take(disk, job.steps()[job.at as int])
                    ==> self.holds(b, root, m, disk.performed(job.steps()[job.at as int])),
        ensures
            exists|base: Disk, disk: Disk|
                job.started(db, base, disk, next_lsn) && fresh(base, job.steps(), job.at as int)
                    && #[trigger] self.stepped(b, root, m, job, base, disk),
    {
        let (base, disk) = choose|base: Disk, disk: Disk| #[trigger]
            self.course_from(a, root, n, db, job, next_lsn, base, disk);
        let step = job.steps()[job.at as int];
        assert(can_take(reach(base, job.steps(), job.at as int), step));
        if !self.holds(a, root, n, disk) {
            let half = disk.performed(step);
            assert(self.holds(a, root, n, half));
            assert(half.performed(step) == half);
        }
        assert(self.stepped(b, root, m, job, base, disk));
    }

    /// What a step that failed leaves.
    proof fn lemma_failed(
        &self,
        a: FileMap,
        b: FileMap,
        root: Seq<Seq<char>>,
        n: int,
        m: int,
        db: Database,
        job: Job,
        next_lsn: u64,
    )
        requires
            self.on_way(a, root, n, db, job, next_lsn),
            job.at < job.steps().len(),
            ({
                let step = job.steps()[job.at as int];
                forall|disk: Disk| #[trigger]
                    self.holds(a, root, n, disk) && can_take(disk, step) ==> self.holds(
                        b,
                        root,
                        m,
                        disk,
                    ) || (step is ResetLog && self.holds(b, root, m, disk.performed(step)))
            }),
        ensures
            self.on_way(b, root, m, db, job, next_lsn),
    {
        let (base, disk) = choose|base: Disk, disk: Disk| #[trigger]
            self.course_from(a, root, n, db, job, next_lsn, base, disk);
        let step = job.steps()[job.at as int];
        assert(can_take(reach(base, job.steps(), job.at as int), step));
        if !self.holds(a, root, n, disk) {
            let half = disk.performed(step);
            assert(self.holds(a, root, n, half));
            assert(half.performed(step) == half);
        }
        assert(self.course_from(b, root, m, db, job, next_lsn, base, disk));
    }

    /// A job that was started from what is stored is on its way.
    proof fn lemma_on_way(
        &self,
        files: FileMap,
        root: Seq<Seq<char>>,
        n: int,
        db: Database,
        job: Job,
        next_lsn: u64,
        disk: Disk,
    )
        requires
            self.holds(files, root, n, disk),
            job.started(db, disk, disk, next_lsn),
            job.at == 0,
            fresh(disk, job.steps(), 0),
        ensures
            self.on_way(files, root, n, db, job, next_lsn),
    {
        assert(self.course_from(files, root, n, db, job, next_lsn, disk, disk));
    }

    /// A record that was appended is stored.
    proof fn lemma_logged(
        &self,
        a: FileMap,
        b: FileMap,
        root: Seq<Seq<char>>,
        before: Wal,
        after: Wal,
        db: Database,
        disk: Disk,
        op: OpView,
        data: Seq<u8>,
        now: Seq<u8>,
    ) -> (rec: RecordView)
        requires
            self.faithful(),
            self.holds(a, root, before.at() as int, disk),
            durable(db, disk, before.next()),
            data == log_bytes(a, root),
            now == log_bytes(b, root),
            a.remove(log_place(root)) == b.remove(log_place(root)),
            before.appends(after, data, now, op, self.records),
            before.next() < u64::MAX,
        ensures
            self.holds(b, root, after.at() as int, disk.appended(rec)),
            logs(db, disk, rec, op, after.next()),
    {
        let n = before.at() as int;
        let rec = RecordView { lsn: before.next(), op };
        let body = self.records.encoded(rec)->Ok_0;
        let said = self.records.decoded(body)->Ok_0;
        let buf = data.take(n);
        self.lemma_log_whole(a, root, n, disk);
        law_append_then_replay(self.records, buf, said, body);
        assert(now =~= buf + frame_bytes(body));
        assert(now.take(after.at() as int) =~= now);
        self.lemma_log_changed(
            a,
            b,
            root,
            n,
            after.at() as int,
            disk,
            disk.log.push(said),
        );
        said
    }

    /// The job of a write that was logged is on its way.
    proof fn lemma_written<N, S>(
        &self,
        files: FileMap,
        root: Seq<Seq<char>>,
        n: int,
        before: Database,
        after: Database,
        op: Op,
        job: Job,
        next_lsn: u64,
        kernel: Kernel<N, S>,
        disk: Disk,
        rec: RecordView,
    ) where N: Fn(&[u32]) -> u32, S: Fn(Metric, &[u32], u32, &[u32], u32) -> u32
        requires
            self.holds(files, root, n, disk.appended(rec)),
            logs(before, disk, rec, op@, next_lsn),
            wrote(before, after, op, next_lsn, kernel, Ok(job)),
            before.next_seg_id + before.collections@.len() + 1 <= u64::MAX,
        ensures
            self.on_way(files, root, n, after, job, next_lsn),
    {
        let (mid, a) = choose|mid: Database, a: Applied| #[trigger]
            before.applies(mid, op, kernel, a) && mid.valid() && before.rest_same(mid)
                && before.follows(mid, op@) && begins(mid, after, a, job, op@, next_lsn, kernel);
        let first = first_job(job.name, a);
        let base = disk.appended(rec);
        lemma_write_starts(before, mid, first, op, next_lsn, kernel);
        lemma_write_fresh(before, mid, op, kernel, a, disk, base, (next_lsn - 1) as u64);
        assert(first.started(mid, base, base, next_lsn));
        if a.steps@.len() > 0 {
            self.lemma_on_way(files, root, n, after, job, next_lsn, base);
        } else {
            lemma_one_more(before, mid, op, kernel, a);
            assert(a.steps@ =~= Seq::<Step>::empty());
            assert(base.performed_all(a.steps@) == base);
            assert(first.closes(mid, mid));
            self.lemma_led(files, root, n, first, mid, after, job, next_lsn, kernel, base);
        }
    }

    /// Logs an operation, and applies it. Where it cannot be logged, it is not applied.
    #[verifier::rlimit(40)]
    fn enter<F: Fs, N, S>(
        &self,
        fs: &mut F,
        root: &FsPath,
        db: &mut Database,
        wal: &mut Wal,
        op: &Op,
        kernel: &Kernel<N, S>,
    ) -> (r: Result<Job, Error>) where
        N: Fn(&[u32]) -> u32,
        S: Fn(Metric, &[u32], u32, &[u32], u32) -> u32,

        requires
            old(fs).sound(),
            self.valid(),
            kernel.valid(),
            old(db).valid(),
            old(wal).next() < u64::MAX,
            old(wal).at() + MAX_FRAME + 8 <= u64::MAX,
            old(db).next_seg_id + old(db).collections@.len() + 1 < u64::MAX,
            forall|e: Error| !#[trigger] old(db).refuses(*op, e),
        ensures
            final(fs).sound(),
            final(db).valid(),
            old(fs).reliable() ==> final(fs).reliable(),
            final(fs).dirs() == old(fs).dirs(),
            r is Ok && old(wal).at() <= log_bytes(old(fs).files(), root@).len() ==> log_whole(
                final(fs).files(),
                root@,
                *final(wal),
            ),
            match r {
                Ok(job) => final(wal).next() == old(wal).next() + 1 && wrote(
                    *old(db),
                    *final(db),
                    *op,
                    final(wal).next(),
                    *kernel,
                    r,
                ) && (*op is Delete ==> job.tends(*final(db))),
                Err(e) => {
                    ||| *final(wal) == *old(wal) && *final(db) == *old(db) && self.unwritten(
                        *old(wal),
                        op@,
                        e,
                    )
                    ||| final(wal).next() == old(wal).next() + 1 && exists|
                        mid: Database,
                        a: Applied,
                    | #[trigger]
                        old(db).applies(mid, *op, *kernel, a) && old(db).rest_same(mid)
                            && old(db).follows(mid, op@) && breaks_off(
                            mid,
                            *final(db),
                            a,
                            op@,
                            e,
                        )
                },
            },
            self.faithful() && self.safe(
                old(fs).files(),
                root@,
                old(wal).at() as int,
                *old(db),
                old(wal).next(),
            ) ==> match r {
                Ok(job) => self.on_way(
                    final(fs).files(),
                    root@,
                    final(wal).at() as int,
                    *final(db),
                    job,
                    final(wal).next(),
                ),
                Err(_) => self.safe(
                    final(fs).files(),
                    root@,
                    final(wal).at() as int,
                    *final(db),
                    final(wal).next(),
                ),
            },
            old(fs).reliable() && roomy(old(fs).files(), old(fs).dirs(), root@) ==> {
                &&& roomy(final(fs).files(), final(fs).dirs(), root@)
                &&& self.can_log(*old(wal), op@) ==> final(wal).next() == old(wal).next() + 1
                &&& old(wal).at() + MAX_FRAME + 8 <= usize::MAX && r is Err && r->Err_0 is Io
                    ==> final(wal).next() == old(wal).next() + 1
            },
    {
        let ghost minded = self.faithful() && self.safe(
            fs.files(),
            root@,
            wal.at() as int,
            *db,
            wal.next(),
        );
        let ghost before = *db;
        let ghost files = fs.files();
        let ghost dirs = fs.dirs();
        let ghost held = *wal;
        let ghost able = fs.reliable() && roomy(files, dirs, root@);
        let number: u64 = wal.next_lsn();
        let ghost disk = choose|disk: Disk| #[trigger]
            self.holds(files, root@, wal.at() as int, disk) && durable(before, disk, wal.next());
        let ghost l = log_place(root@);
        proof {
            lemma_root_places(root@);
        }
        let backend = match open_log(fs, root) {
            Ok(b) => b,
            Err(e) => {
                proof {
                    if minded {
                        let n = held.at() as int;
                        self.lemma_log_changed(files, fs.files(), root@, n, n, disk, disk.log);
                        assert(Disk { log: disk.log, ..disk } == disk);
                    }
                }
                return Err(e);
            },
        };
        let ghost data = backend.data();
        let written = db.write(wal, backend, op, &self.records, kernel);
        let ghost now = log_bytes(fs.files(), root@);
        proof {
            assert(files.remove(l) =~= fs.files().remove(l));
            assert(data =~= log_bytes(files, root@));
            if able {
                lemma_room_files(files, fs.files(), dirs, root@);
            }
            if wal.next() != number {
                assert(held.appends(*wal, data, now, op@, self.records));
            }
            if minded {
                let n = held.at() as int;
                if wal.next() != number {
                    let rec = self.lemma_logged(
                        files,
                        fs.files(),
                        root@,
                        held,
                        *wal,
                        before,
                        disk,
                        op@,
                        data,
                        now,
                    );
                    if written is Ok {
                        self.lemma_written(
                            fs.files(),
                            root@,
                            wal.at() as int,
                            before,
                            *db,
                            *op,
                            written->Ok_0,
                            wal.next(),
                            *kernel,
                            disk,
                            rec,
                        );
                    } else {
                        assert(!before.refuses(*op, written->Err_0));
                        assert(durable(*db, disk.appended(rec), wal.next()));
                    }
                } else {
                    assert(now.take(n) =~= data.take(n));
                    self.lemma_log_changed(files, fs.files(), root@, n, n, disk, disk.log);
                    assert(Disk { log: disk.log, ..disk } == disk);
                }
            }
        }
        written
    }

    /// Writes: logs an operation, applies it, and stores what follows from it; says how many
    /// points it was about. First finishes the work that is still to be done. An operation that
    /// cannot be logged is not applied. Once it was logged and applied, what is left to be stored
    /// can be stored later.
    #[verifier::rlimit(40)]
    pub fn write<F: Fs, N, S>(
        &self,
        fs: &mut F,
        root: &FsPath,
        db: &mut Database,
        wal: &mut Wal,
        job: &mut Job,
        op: &Op,
        kernel: &Kernel<N, S>,
    ) -> (r: Result<usize, Error>) where
        N: Fn(&[u32]) -> u32,
        S: Fn(Metric, &[u32], u32, &[u32], u32) -> u32,

        requires
            old(fs).sound(),
            self.valid(),
            kernel.valid(),
            old(job).fits(*old(db)),
            old(wal).next() > 0,
        ensures
            final(fs).sound(),
            final(db).valid(),
            final(job).fits(*final(db)),
            final(wal).next() == old(wal).next() || final(wal).next() == old(wal).next() + 1,
            final(wal).next() == old(wal).next() ==> r is Err && keeps_same(*old(db), *final(db)),
            final(wal).next() == old(wal).next() + 1 && old(db).apart() ==> forall|name: Seq<char>|
                #[trigger] settled_kept(final(db).kept(name)) == settled_kept(
                    outcome(old(db).kept(name), op@, name),
                ),
            r is Ok ==> final(job).stage is Done && final(wal).next() == old(wal).next() + 1,
            r matches Ok(n) ==> n == counted(old(db).kept(subject(op@)), op@),
            r is Ok ==> exists|d: Database, mid: Database, a: Applied| #[trigger]
                d.applies(mid, *op, *kernel, a) && d.rest_same(mid) && mid.valid() && keeps_same(
                    *old(db),
                    d,
                ) && (
                old(job).stage is Done ==> d == *old(db)) && carried_through(
                    mid,
                    *final(db),
                    *final(wal),
                    log_bytes(final(fs).files(), root@),
                    *op,
                    a,
                    *kernel,
                ),
            r is Ok && old(job).stage is Done && keeps_norms(*old(db), *kernel) ==> keeps_norms(
                *final(db),
                *kernel,
            ),
            r matches Err(e) ==> if final(wal).next() == old(wal).next() {
                self.unlogged(*old(db), *old(job), *old(wal), *op, e)
            } else {
                self.unfinished(
                    *final(db),
                    *op,
                    write_numbers(*old(db), *old(job), *old(wal), op@),
                    e,
                )
            },
            self.can_write(*old(fs), root@, *old(wal), *old(db), *old(job), *op) ==> r is Ok,
            r is Ok && log_whole(old(fs).files(), root@, *old(wal)) ==> log_whole(
                final(fs).files(),
                root@,
                *final(wal),
            ),
            old(job).stage is Done && write_numbers(*old(db), *old(job), *old(wal), op@) && (exists|
                e: Error,
            | #[trigger]
                old(db).refuses(*op, e)) ==> r is Err && old(db).refuses(*op, r->Err_0)
                && *final(db) == *old(db) && *final(wal) == *old(wal) && *final(fs) == *old(fs),
            final(db).options == old(db).options,
            forall|more: nat|
                #![trigger spacious(*final(db), more)]
                spacious(*old(db), more + points_in(op@)) && can_hold(op@, more) ==> spacious(
                    *final(db),
                    more,
                ),
            old(fs).reliable() ==> final(fs).reliable(),
            self.faithful() && self.on_way(
                old(fs).files(),
                root@,
                old(wal).at() as int,
                *old(db),
                *old(job),
                old(wal).next(),
            ) ==> self.on_way(
                final(fs).files(),
                root@,
                final(wal).at() as int,
                *final(db),
                *final(job),
                final(wal).next(),
            ) && (r is Ok ==> self.safe(
                final(fs).files(),
                root@,
                final(wal).at() as int,
                *final(db),
                final(wal).next(),
            )) && (old(fs).reliable() && roomy(old(fs).files(), old(fs).dirs(), root@)
                ==> roomy(final(fs).files(), final(fs).dirs(), root@) && (old(wal).at()
                + MAX_FRAME + 8 <= usize::MAX ==> !(r is Err && r->Err_0 is Io)) && (clears(
                standing(old(fs).dirs(), root@),
                *old(db),
                *old(job),
            ) ==> clears(standing(final(fs).dirs(), root@), *final(db), *final(job)) && (r is Ok
                ==> matched(final(fs).dirs(), root@, final(db).manifest@)))),
    {
        let ghost start = *db;
        let ghost minded = self.faithful() && self.on_way(
            fs.files(),
            root@,
            wal.at() as int,
            *db,
            *job,
            wal.next(),
        );
        let ghost able = minded && fs.reliable() && roomy(fs.files(), fs.dirs(), root@);
        let ghost fine = self.can_write(*fs, root@, *wal, *db, *job, *op);
        match self.carry_out(fs, root, db, wal, job, kernel) {
            Ok(_) => {},
            Err(e) => {
                proof {
                    lemma_less_space(start, *db, op@);
                }
                return Err(e);
            },
        }
        proof {
            lemma_less_space(start, *db, op@);
            lemma_roster(start, *db, 1, subject(op@));
            lemma_coll_from(db.collections@, subject(op@), 0);
        }
        let room: u64 = u64::MAX - MAX_FRAME as u64 - 8;
        if db.next_seg_id > u64::MAX - 3 || (db.collections.len() as u64) > u64::MAX - 3
            - db.next_seg_id || wal.next_lsn() == u64::MAX || wal.offset() > room {
            return Err(Error::Invalid(Invalid::NumbersUsedUp));
        }
        if let Some(e) = db.refusal(op) {
            proof {
                assert(keeps_same(start, *db) && db.refuses(*op, e));
                if spacious(*db, points_in(op@)) {
                    lemma_not_refused(*db, *op, e);
                }
            }
            return Err(e);
        }
        let ghost before = *db;
        let ghost ids = standing(fs.dirs(), root@);
        let ghost held = choose|disk: Disk| #[trigger]
            self.holds(fs.files(), root@, wal.at() as int, disk) && durable(
                before,
                disk,
                wal.next(),
            );
        proof {
            if minded {
                lemma_enlisted(before, held, wal.next());
            }
        }
        let number: u64 = wal.next_lsn();
        match self.enter(fs, root, db, wal, op, kernel) {
            Ok(j) => {
                let count: usize = j.done.count;
                *job = j;
                let ghost after = *db;
                let ghost first = *job;
                let ghost (mid, a) = choose|mid: Database, a: Applied| #[trigger]
                    before.applies(mid, *op, *kernel, a) && mid.valid() && before.rest_same(mid)
                        && before.follows(mid, op@) && begins(
                        mid,
                        after,
                        a,
                        first,
                        op@,
                        wal.next(),
                        *kernel,
                    );
                proof {
                    lemma_begun(before, mid, after, *op, *kernel, a, first, wal.next());
                    lemma_tracks_first(mid, first.name, a, after, first, wal.next(), *kernel);
                    lemma_counted(before, mid, *op, *kernel, a);
                    lemma_counted_same(before.kept(subject(op@)), start.kept(subject(op@)), op@);
                    if fine {
                        lemma_space_left(before, mid, *op, *kernel, a);
                    }
                    if minded && ids.subset_of(listed(before.manifest@)) {
                        lemma_begun_clears(
                            before,
                            mid,
                            after,
                            *op,
                            *kernel,
                            a,
                            first,
                            wal.next(),
                            ids,
                        );
                    }
                }
                let went = self.carry_out(fs, root, db, wal, job, kernel);
                proof {
                    lemma_comes_to(start, before, after, *db, op@);
                    lemma_space_through(start, before, mid, after, *db, *op, *kernel, a);
                    if went is Err {
                        lemma_unfinished(after, *db, first, went->Err_0);
                    } else {
                        lemma_through(
                            before,
                            mid,
                            after,
                            *db,
                            *op,
                            *kernel,
                            a,
                            first,
                            *wal,
                            log_bytes(fs.files(), root@),
                        );
                        assert(before.applies(mid, *op, *kernel, a) && keeps_same(start, before));
                        if keeps_norms(before, *kernel) {
                            law_writing_keeps_norms(before, mid, *op, *kernel, a);
                            law_finishing_keeps_norms(
                                mid,
                                *db,
                                subject(op@),
                                a,
                                wal.next(),
                                *kernel,
                            );
                        }
                    }
                }
                match went {
                    Ok(_) => Ok(count),
                    Err(e) => Err(e),
                }
            },
            Err(e) => {
                proof {
                    if wal.next() != number {
                        let (mid, a) = choose|mid: Database, a: Applied| #[trigger]
                            before.applies(mid, *op, *kernel, a) && before.rest_same(mid)
                                && before.follows(mid, op@) && breaks_off(mid, *db, a, op@, e);
                        lemma_keeps_same(mid);
                        lemma_broken_off(mid, *db, a, *op, e);
                        lemma_keeps_numbers(mid, mid, *db);
                        lemma_comes_to(start, before, mid, *db, op@);
                        lemma_space_through(start, before, mid, mid, *db, *op, *kernel, a);
                        if minded && ids.subset_of(listed(before.manifest@)) {
                            lemma_write_sweeps(before, mid, *op, *kernel, a, ids);
                            assert(a.steps@ =~= Seq::<Step>::empty());
                        }
                        if minded {
                            let disk = choose|disk: Disk| #[trigger]
                                self.holds(fs.files(), root@, wal.at() as int, disk) && durable(
                                    *db,
                                    disk,
                                    wal.next(),
                                );
                            lemma_enlisted(*db, disk, wal.next());
                            if fine {
                                lemma_not_broken_off(before, mid, *db, *op, *kernel, a, e);
                            }
                        }
                    }
                }
                *job = idle("");
                proof {
                    lemma_done(*db, *job);
                    lemma_clears_done(ids, *db, *job);
                    if minded {
                        let disk = choose|disk: Disk| #[trigger]
                            self.holds(fs.files(), root@, wal.at() as int, disk) && durable(
                                *db,
                                disk,
                                wal.next(),
                            );
                        self.lemma_idle(
                            fs.files(),
                            root@,
                            wal.at() as int,
                            *db,
                            *job,
                            wal.next(),
                            disk,
                        );
                    }
                }
                Err(e)
            },
        }
    }

    /// Flushes: turns what is in memory into segments, and empties the log. First finishes the
    /// work that is still to be done. Where this fails, what is left can be done later.
    pub fn flush<F: Fs, N, S>(
        &self,
        fs: &mut F,
        root: &FsPath,
        db: &mut Database,
        wal: &mut Wal,
        job: &mut Job,
        kernel: &Kernel<N, S>,
    ) -> (r: Result<(), Error>) where
        N: Fn(&[u32]) -> u32,
        S: Fn(Metric, &[u32], u32, &[u32], u32) -> u32,

        requires
            old(fs).sound(),
            self.valid(),
            kernel.valid(),
            old(job).fits(*old(db)),
            old(wal).next() > 0,
        ensures
            final(fs).sound(),
            final(db).valid(),
            final(job).fits(*final(db)),
            final(wal).next() == old(wal).next(),
            keeps_same(*old(db), *final(db)),
            old(fs).reliable() ==> final(fs).reliable(),
            r is Ok ==> {
                &&& final(job).stage is Done
                &&& all_flushed(*final(db), final(wal).next())
                &&& final(wal).at() == 0
                &&& log_bytes(final(fs).files(), root@).len() == 0
            },
            r matches Err(e) ==> self.flush_fails(*old(db), *old(job), e),
            r is Ok ==> exists|d: Database| #[trigger]
                keeps_same(*old(db), d) && (old(job).stage is Done ==> d == *old(db)) && flushed_as(
                    d,
                    *final(db),
                    final(wal).next(),
                    *kernel,
                ),
            r is Ok && old(job).stage is Done && keeps_norms(*old(db), *kernel) ==> keeps_norms(
                *final(db),
                *kernel,
            ),
            r is Err && old(job).stage is Done ==> match final(job).stage {
                Stage::Done => *final(fs) == *old(fs) && *final(wal) == *old(wal),
                Stage::Flush(plan) => old(db).flush_planned(plan, old(wal).next(), *kernel) && (
                final(job).at < plan.steps@.len() - 1 ==> *final(wal) == *old(wal) && same_record(
                    old(fs).files(),
                    final(fs).files(),
                    root@,
                )),
                _ => false,
            },
            self.can_finish(*old(fs), root@, *old(wal), *old(db), *old(job)) && flush_numbers(
                *old(db),
                *old(job),
            ) ==> r is Ok,
            final(db).options == old(db).options,
            same_roster(*old(db), *final(db), 2),
            forall|more: nat| #[trigger] spacious(*old(db), more) ==> spacious(*final(db), more),
            self.faithful() && self.on_way(
                old(fs).files(),
                root@,
                old(wal).at() as int,
                *old(db),
                *old(job),
                old(wal).next(),
            ) ==> self.on_way(
                final(fs).files(),
                root@,
                final(wal).at() as int,
                *final(db),
                *final(job),
                final(wal).next(),
            ) && (r is Ok ==> self.safe(
                final(fs).files(),
                root@,
                final(wal).at() as int,
                *final(db),
                final(wal).next(),
            )) && (old(fs).reliable() && roomy(old(fs).files(), old(fs).dirs(), root@)
                ==> !(r is Err && r->Err_0 is Io) && roomy(
                final(fs).files(),
                final(fs).dirs(),
                root@,
            ) && (clears(standing(old(fs).dirs(), root@), *old(db), *old(job)) ==> clears(
                standing(final(fs).dirs(), root@),
                *final(db),
                *final(job),
            ) && (r is Ok ==> matched(final(fs).dirs(), root@, final(db).manifest@)))),
    {
        let ghost start = *db;
        let ghost minded = self.faithful() && self.on_way(
            fs.files(),
            root@,
            wal.at() as int,
            *db,
            *job,
            wal.next(),
        );
        match self.carry_out(fs, root, db, wal, job, kernel) {
            Ok(_) => {},
            Err(e) => {
                return Err(e);
            },
        }
        if db.next_seg_id > u64::MAX - 2 || (db.collections.len() as u64) > u64::MAX - 2
            - db.next_seg_id {
            return Err(Error::Invalid(Invalid::NumbersUsedUp));
        }
        let ghost before = *db;
        let ghost ids = standing(fs.dirs(), root@);
        let next_lsn: u64 = wal.next_lsn();
        let started = db.start_flush(next_lsn, kernel);
        let ghost after = *db;
        proof {
            lemma_keeps_numbers(start, before, after);
        }
        match started {
            Ok(j) => {
                *job = j;
            },
            Err(e) => {
                *job = idle("");
                proof {
                    lemma_done(*db, *job);
                    assert(keeps_same(start, before) && before.flush_refused(e));
                    lemma_clears_done(ids, *db, *job);
                    if minded {
                        let disk = choose|disk: Disk| #[trigger]
                            self.holds(fs.files(), root@, wal.at() as int, disk) && durable(
                                before,
                                disk,
                                next_lsn,
                            );
                        lemma_enlisted(before, disk, next_lsn);
                        if spacious(before, 0) {
                            lemma_flush_goes(before, e);
                        }
                        self.lemma_idle(
                            fs.files(),
                            root@,
                            wal.at() as int,
                            *db,
                            *job,
                            next_lsn,
                            disk,
                        );
                    }
                }
                return Err(e);
            },
        }
        let ghost planned = *job;
        proof {
            if let Stage::Flush(plan) = planned.stage {
                lemma_flushes(before, plan.at@);
            }
            assert(forall|more: nat| #[trigger] spacious(before, more) ==> spacious(after, more));
            if minded {
                let disk = choose|disk: Disk| #[trigger]
                    self.holds(fs.files(), root@, wal.at() as int, disk) && durable(
                        before,
                        disk,
                        next_lsn,
                    );
                if let Stage::Flush(plan) = planned.stage {
                    lemma_flushes(before, plan.at@);
                    let t = trimmed(disk, before.next_seg_id);
                    lemma_trimmed(before, disk, next_lsn);
                    self.lemma_holds_trimmed(
                        fs.files(),
                        root@,
                        wal.at() as int,
                        disk,
                        before.next_seg_id,
                    );
                    lemma_flush_starts(before, after, *job, plan, next_lsn, *kernel);
                    lemma_enlisted(before, disk, next_lsn);
                    if ids.subset_of(listed(before.manifest@)) {
                        lemma_flush_sweeps(before, plan, next_lsn, *kernel, ids);
                        assert(job.steps().skip(0) =~= job.steps());
                    }
                    lemma_flush_fresh(before, disk, plan, next_lsn, *kernel);
                    assert(job.started(after, t, t, next_lsn));
                    self.lemma_on_way(
                        fs.files(),
                        root@,
                        wal.at() as int,
                        after,
                        *job,
                        next_lsn,
                        t,
                    );
                }
            }
        }
        let r = self.carry_out(fs, root, db, wal, job, kernel);
        proof {
            lemma_keeps_through(start, after, *db);
            if let Stage::Flush(plan) = planned.stage {
                if r is Ok {
                    lemma_nothing_left(before, after, *db, plan, next_lsn, *kernel);
                    assert(after.flush_committed(*db, plan));
                    assert(flushed_as(before, *db, next_lsn, *kernel));
                    assert(keeps_same(start, before));
                    if keeps_norms(before, *kernel) {
                        assert(before.collections.len() <= usize::MAX);
                        law_flushing_keeps_norms(before, *db, next_lsn, *kernel);
                    }
                } else if job.at < plan.steps@.len() - 1 {
                    lemma_flush_steps_first(before, plan, next_lsn, *kernel);
                    assert(only_segments(planned, 0, job.at as int)) by {
                        assert forall|i: int| 0 <= i < job.at implies (
                        #[trigger] planned.steps()[i]) is WriteSegment
                            || planned.steps()[i] is WriteIndex by {
                            assert(plan.steps@[i] is WriteSegment || plan.steps@[i] is WriteIndex);
                        }
                    }
                }
            }
        }
        r
    }

    /// Compacts a collection: puts one segment in the place of all others, without what was
    /// deleted. First finishes the work that is still to be done. Where this fails, what is left
    /// can be done later.
    pub fn compact<F: Fs, N, S>(
        &self,
        fs: &mut F,
        root: &FsPath,
        db: &mut Database,
        wal: &mut Wal,
        job: &mut Job,
        name: &str,
        kernel: &Kernel<N, S>,
    ) -> (r: Result<(), Error>) where
        N: Fn(&[u32]) -> u32,
        S: Fn(Metric, &[u32], u32, &[u32], u32) -> u32,

        requires
            old(fs).sound(),
            self.valid(),
            kernel.valid(),
            old(job).fits(*old(db)),
            old(wal).next() > 0,
        ensures
            final(fs).sound(),
            final(db).valid(),
            final(job).fits(*final(db)),
            final(wal).next() == old(wal).next(),
            keeps_same(*old(db), *final(db)),
            old(fs).reliable() ==> final(fs).reliable(),
            r is Ok ==> final(job).stage is Done && is_compact(*final(db), name@),
            r is Ok ==> exists|d: Database| #[trigger]
                keeps_same(*old(db), d) && (old(job).stage is Done ==> d == *old(db))
                    && compacted_as(d, *final(db), name@, *kernel),
            r is Ok && old(job).stage is Done && keeps_norms(*old(db), *kernel) ==> keeps_norms(
                *final(db),
                *kernel,
            ),
            r matches Err(e) ==> self.compact_fails(*old(db), *old(job), name@, e),
            self.can_finish(*old(fs), root@, *old(wal), *old(db), *old(job)) && compact_numbers(
                *old(db),
                *old(job),
            ) && coll_at(old(db).collections@, name@) < old(db).collections@.len() ==> r is Ok,
            old(job).stage is Done && compact_numbers(*old(db), *old(job)) && coll_at(
                old(db).collections@,
                name@,
            ) == old(db).collections@.len() ==> (r matches Err(Error::CollectionNotFound(n)) && n@
                == name@),
            r is Ok && log_whole(old(fs).files(), root@, *old(wal)) ==> log_whole(
                final(fs).files(),
                root@,
                *final(wal),
            ),
            final(db).options == old(db).options,
            same_roster(*old(db), *final(db), 2),
            forall|more: nat| #[trigger] spacious(*old(db), more) ==> spacious(*final(db), more),
            self.faithful() && self.on_way(
                old(fs).files(),
                root@,
                old(wal).at() as int,
                *old(db),
                *old(job),
                old(wal).next(),
            ) ==> self.on_way(
                final(fs).files(),
                root@,
                final(wal).at() as int,
                *final(db),
                *final(job),
                final(wal).next(),
            ) && (r is Ok ==> self.safe(
                final(fs).files(),
                root@,
                final(wal).at() as int,
                *final(db),
                final(wal).next(),
            )) && (old(fs).reliable() && roomy(old(fs).files(), old(fs).dirs(), root@)
                ==> !(r is Err && r->Err_0 is Io) && roomy(
                final(fs).files(),
                final(fs).dirs(),
                root@,
            ) && (clears(standing(old(fs).dirs(), root@), *old(db), *old(job)) ==> clears(
                standing(final(fs).dirs(), root@),
                *final(db),
                *final(job),
            ) && (r is Ok ==> matched(final(fs).dirs(), root@, final(db).manifest@)))),
    {
        let ghost start = *db;
        let ghost minded = self.faithful() && self.on_way(
            fs.files(),
            root@,
            wal.at() as int,
            *db,
            *job,
            wal.next(),
        );
        match self.carry_out(fs, root, db, wal, job, kernel) {
            Ok(_) => {},
            Err(e) => {
                return Err(e);
            },
        }
        if db.next_seg_id > u64::MAX - 3 || (db.collections.len() as u64) > u64::MAX - 3
            - db.next_seg_id || !db.rows_fit() {
            return Err(Error::Invalid(Invalid::NumbersUsedUp));
        }
        let ghost before = *db;
        let ghost ids = standing(fs.dirs(), root@);
        let ghost next_lsn = wal.next();
        let started = db.start_compact(name, kernel);
        let ghost after = *db;
        proof {
            lemma_keeps_numbers(start, before, after);
        }
        match started {
            Ok(j) => {
                *job = j;
            },
            Err(e) => {
                *job = idle("");
                proof {
                    lemma_done(*db, *job);
                    assert(keeps_same(start, before) && before.compact_refused(name@, e));
                    lemma_clears_done(ids, *db, *job);
                    lemma_roster(start, before, 1, name@);
                    if minded {
                        let disk = choose|disk: Disk| #[trigger]
                            self.holds(fs.files(), root@, wal.at() as int, disk) && durable(
                                before,
                                disk,
                                next_lsn,
                            );
                        lemma_enlisted(before, disk, next_lsn);
                        if spacious(before, 0) && coll_at(start.collections@, name@)
                            < start.collections@.len() {
                            lemma_compact_goes(before, name@, e);
                        }
                        self.lemma_idle(
                            fs.files(),
                            root@,
                            wal.at() as int,
                            *db,
                            *job,
                            next_lsn,
                            disk,
                        );
                    }
                }
                return Err(e);
            },
        }
        let ghost planned = *job;
        proof {
            assert(forall|more: nat| #[trigger] spacious(before, more) ==> spacious(after, more));
            if minded {
                let disk = choose|disk: Disk| #[trigger]
                    self.holds(fs.files(), root@, wal.at() as int, disk) && durable(
                        before,
                        disk,
                        next_lsn,
                    );
                if let Stage::Compact(plan) = planned.stage {
                    let m = choose|m: MutableSegment| #[trigger]
                        before.compact_planned(name@, plan, *kernel, m);
                    let t = trimmed(disk, before.next_seg_id);
                    lemma_trimmed(before, disk, next_lsn);
                    self.lemma_holds_trimmed(
                        fs.files(),
                        root@,
                        wal.at() as int,
                        disk,
                        before.next_seg_id,
                    );
                    lemma_compact_starts(before, after, *job, plan, *kernel, m);
                    if ids.subset_of(listed(before.manifest@)) {
                        lemma_compact_sweeps(before, name@, plan, *kernel, m, disk, next_lsn, ids);
                        assert(job.steps().skip(0) =~= job.steps());
                    }
                    lemma_compact_fresh(before, name@, disk, plan, *kernel, m);
                    assert(job.started(after, t, t, next_lsn));
                    self.lemma_on_way(
                        fs.files(),
                        root@,
                        wal.at() as int,
                        after,
                        *job,
                        next_lsn,
                        t,
                    );
                }
            }
        }
        let r = self.carry_out(fs, root, db, wal, job, kernel);
        proof {
            lemma_keeps_through(start, after, *db);
            if r is Ok {
                if let Stage::Compact(plan) = planned.stage {
                    let m = choose|m: MutableSegment| #[trigger]
                        before.compact_planned(name@, plan, *kernel, m);
                    lemma_compacted(before, after, *db, name@, plan, *kernel, m);
                    assert(after.compact_committed(*db, plan));
                    assert(compacted_as(before, *db, name@, *kernel));
                    assert(keeps_same(start, before));
                    if keeps_norms(before, *kernel) {
                        law_compacting_keeps_norms(before, *db, name@, *kernel);
                    }
                }
            }
        }
        r
    }
}

/// Where there is space for more points, there is for none.
proof fn lemma_less_space(start: Database, db: Database, op: OpView)
    requires
        forall|more: nat| #[trigger] spacious(start, more) ==> spacious(db, more),
    ensures
        forall|more: nat| #[trigger]
            spacious(start, more + points_in(op)) ==> spacious(db, more) && spacious(
                db,
                more + points_in(op),
            ),
        forall|more: nat|
            #![trigger spacious(db, more)]
            spacious(start, more + points_in(op)) ==> spacious(db, more),
        spacious(start, points_in(op)) ==> spacious(db, 0) && spacious(db, points_in(op)),
{
    assert forall|more: nat| #[trigger] spacious(start, more + points_in(op)) implies spacious(
        db,
        more,
    ) && spacious(db, more + points_in(op)) by {
        lemma_spacious_less(db, more + points_in(op), more);
    }
    assert forall|more: nat|
        #![trigger spacious(db, more)]
        spacious(start, more + points_in(op)) implies spacious(db, more) by {
        lemma_spacious_less(db, more + points_in(op), more);
    }
    assert(0nat + points_in(op) == points_in(op));
    if spacious(start, points_in(op)) {
        lemma_spacious_less(db, points_in(op), 0);
    }
}

/// An operation is not refused where its collection is there and has space.
proof fn lemma_not_refused(db: Database, op: Op, e: Error)
    requires
        db.refuses(op, e),
        spacious(db, points_in(op@)),
    ensures
        needs_collection(op@),
        coll_at(db.collections@, subject(op@)) == db.collections@.len(),
{
    let at = coll_at(db.collections@, subject(op@));
    lemma_coll_from(db.collections@, subject(op@), 0);
    if at < db.collections@.len() {
        assert(has_space(db.collections@[at], points_in(op@)));
    }
}

/// What the job of a write begins with.
proof fn lemma_begun<N, S>(
    before: Database,
    mid: Database,
    after: Database,
    op: Op,
    kernel: Kernel<N, S>,
    a: Applied,
    job: Job,
    next_lsn: u64,
) where N: Fn(&[u32]) -> u32, S: Fn(Metric, &[u32], u32, &[u32], u32) -> u32
    requires
        before.applies(mid, op, kernel, a),
        before.rest_same(mid),
        begins(mid, after, a, job, op@, next_lsn, kernel),
    ensures
        job.done == a,
        job.name@ == subject(op@),
        after.options == before.options,
        after.collections == mid.collections,
        ({
            let n = before.collections@.len() + 1;
            let at = coll_at(before.collections@, subject(op@));
            let segs = if at < before.collections@.len() {
                before.collections@[at].view.immutables@.len()
            } else {
                0
            };
            before.next_seg_id + segs + 1 + n + n + 2 <= u64::MAX ==> has_numbers(after, job)
        }),
        rank(job) == 2 || job.stage is Flush || (job.stage is Done && !a.need_flush),
        job.stage matches Stage::Flush(plan) ==> a.need_flush && job.steps().last() is ResetLog
            && mid.flush_planned(plan, next_lsn, kernel) && mid.only_numbers(after),
{
    let first = first_job(job.name, a);
    lemma_one_more(before, mid, op, kernel, a);
    lemma_worn_few(before, mid, op, kernel, a);
    if a.steps@.len() == 0 {
        lemma_leads_on(mid, first, after, job, next_lsn, kernel);
    }
}

/// The job of a write leaves no directory that the manifest does not have.
proof fn lemma_begun_clears<N, S>(
    before: Database,
    mid: Database,
    after: Database,
    op: Op,
    kernel: Kernel<N, S>,
    a: Applied,
    job: Job,
    next_lsn: u64,
    ids: Set<u64>,
) where N: Fn(&[u32]) -> u32, S: Fn(Metric, &[u32], u32, &[u32], u32) -> u32
    requires
        before.valid(),
        before.applies(mid, op, kernel, a),
        before.rest_same(mid),
        begins(mid, after, a, job, op@, next_lsn, kernel),
        enlisted(before),
        names_differ(before.manifest@.entries),
        before.next_seg_id + before.collections@.len() + 1 <= u64::MAX,
        ids.subset_of(listed(before.manifest@)),
    ensures
        clears(ids, after, job),
{
    let first = first_job(job.name, a);
    lemma_write_sweeps(before, mid, op, kernel, a, ids);
    assert(a.steps@.skip(0) =~= a.steps@);
    if a.steps@.len() == 0 {
        let most = segs_in_all(before.collections@);
        lemma_segs_in_all(before.collections@);
        lemma_enlisted_after(before, mid, op, kernel, a, most);
        lemma_one_more(before, mid, op, kernel, a);
        assert(a.steps@ =~= Seq::<Step>::empty());
        lemma_lead_clears(mid, first, after, job, next_lsn, kernel, ids);
    }
}

/// How many segments collections have together.
spec fn segs_in_all(colls: Seq<Collection>) -> nat
    decreases colls.len(),
{
    if colls.len() == 0 {
        0
    } else {
        segs_in_all(colls.drop_last()) + colls.last().view.immutables@.len()
    }
}

proof fn lemma_segs_in_all(colls: Seq<Collection>)
    ensures
        forall|i: int|
            0 <= i < colls.len() ==> (#[trigger] colls[i]).view.immutables@.len() <= segs_in_all(
                colls,
            ),
    decreases colls.len(),
{
    if colls.len() > 0 {
        lemma_segs_in_all(colls.drop_last());
        assert forall|i: int| 0 <= i < colls.len() implies (
        #[trigger] colls[i]).view.immutables@.len() <= segs_in_all(colls) by {
            if i < colls.len() - 1 {
                assert(colls.drop_last()[i] == colls[i]);
            }
        }
    }
}

/// There is space once an operation was applied, where there was for its points.
proof fn lemma_space_left<N, S>(
    before: Database,
    mid: Database,
    op: Op,
    kernel: Kernel<N, S>,
    a: Applied,
) where N: Fn(&[u32]) -> u32, S: Fn(Metric, &[u32], u32, &[u32], u32) -> u32
    requires
        before.valid(),
        before.applies(mid, op, kernel, a),
        spacious(before, points_in(op@)),
    ensures
        spacious(mid, 0),
{
    assert(0nat + points_in(op@) == points_in(op@));
    assert(can_hold(op@, 0)) by {
        if let OpView::Create { config, .. } = op@ {
            lemma_buildable_none(config);
        }
    }
    lemma_space_after(before, mid, op, kernel, a, 0);
}

/// Deleting points names the segments that are worth rebuilding.
proof fn lemma_delete_place<N, S>(
    before: Database,
    mid: Database,
    op: Op,
    kernel: Kernel<N, S>,
    a: Applied,
) where N: Fn(&[u32]) -> u32, S: Fn(Metric, &[u32], u32, &[u32], u32) -> u32
    requires
        op is Delete,
        before.applies(mid, op, kernel, a),
    ensures
        ({
            let c = coll_at(mid.collections@, subject(op@));
            c < mid.collections@.len() && worn_list(
                mid.collections@[c].view.immutables@,
                a.rebuild@,
            )
        }),
{
    let name = subject(op@);
    let c = coll_at(before.collections@, name);
    lemma_coll_from(before.collections@, name, 0);
    lemma_coll_from(mid.collections@, name, 0);
    assert(mid.collections@[c].name == before.collections@[c].name);
    let x = coll_at(mid.collections@, name);
    if x < c {
        assert(mid.collections@[x] == before.collections@[x]);
    } else if x > c {
        assert(mid.collections@[c].name@ != name);
    }
}

/// What an operation led to was carried through once its job is done.
proof fn lemma_through<N, S>(
    before: Database,
    mid: Database,
    after: Database,
    db: Database,
    op: Op,
    kernel: Kernel<N, S>,
    a: Applied,
    job: Job,
    wal: Wal,
    log: Seq<u8>,
) where N: Fn(&[u32]) -> u32, S: Fn(Metric, &[u32], u32, &[u32], u32) -> u32
    requires
        before.applies(mid, op, kernel, a),
        mid.valid(),
        finished(mid, db, subject(op@), a, wal.next(), kernel),
        before.rest_same(mid),
        begins(mid, after, a, job, op@, wal.next(), kernel),
        wal.next() > 0,
        op is Delete ==> job.tends(after),
        rank(job) == 2 && a.need_flush ==> all_flushed(db, wal.next()) && wal.at() == 0 && log.len()
            == 0,
        rank(job) == 2 && !a.need_flush && job.tends(after) ==> none_worn(db, job.name@),
        single(job) ==> job.closes(after, db),
        single(job) && job.steps().last() is ResetLog ==> wal.at() == 0 && log.len() == 0,
        job.stage is Done ==> db == after,
    ensures
        carried_through(mid, db, wal, log, op, a, kernel),
{
    lemma_begun(before, mid, after, op, kernel, a, job, wal.next());
    let d = choose|d: Database| #[trigger]
        rebuilt(mid, d, subject(op@), a.rebuild@, kernel) && if a.need_flush {
            flushed_as(d, db, wal.next(), kernel)
        } else {
            db == d
        };
    if op is Delete {
        lemma_delete_place(before, mid, op, kernel, a);
        law_only_worn_segments_are_rebuilt(mid, d, subject(op@), a.rebuild@, kernel);
    } else {
        assert(a.rebuild@.len() == 0);
        assert(d == mid);
    }
    if let Stage::Flush(plan) = job.stage {
        let n = mid.collections.len();
        assert(n == mid.collections@.len());
        lemma_nothing_left(mid, after, db, plan, wal.next(), kernel);
    }
}

/// There is space once a write was carried through, where there was for its points.
proof fn lemma_space_through<N, S>(
    start: Database,
    before: Database,
    mid: Database,
    after: Database,
    db: Database,
    op: Op,
    kernel: Kernel<N, S>,
    a: Applied,
) where N: Fn(&[u32]) -> u32, S: Fn(Metric, &[u32], u32, &[u32], u32) -> u32
    requires
        before.valid(),
        before.applies(mid, op, kernel, a),
        after.collections == mid.collections,
        forall|more: nat| #[trigger] spacious(start, more) ==> spacious(before, more),
        after == mid && db.collections == mid.collections || forall|more: nat| #[trigger]
            spacious(after, more) ==> spacious(db, more),
    ensures
        forall|more: nat|
            #![trigger spacious(db, more)]
            spacious(start, more + points_in(op@)) && can_hold(op@, more) ==> spacious(db, more),
{
    assert forall|more: nat|
        #![trigger spacious(db, more)]
        spacious(start, more + points_in(op@)) && can_hold(op@, more) implies spacious(
        db,
        more,
    ) by {
        lemma_space_after(before, mid, op, kernel, a, more);
        assert(spacious(after, more));
    }
}

/// Where what follows from a write fails, a state that keeps the same refuses to go on, if that
/// is the reason.
proof fn lemma_unfinished(after: Database, db: Database, job: Job, e: Error)
    requires
        keeps_same(after, db),
    ensures
        gets_stuck(after, job, e) ==> exists|d: Database| #[trigger]
            keeps_same(db, d) && ((exists|si: usize| #[trigger]
                d.rebuild_refused(job.name@, si, e)) || d.flush_refused(e)),
{
    if gets_stuck(after, job, e) {
        let d = choose|d: Database| #[trigger] keeps_same(after, d) && refuses_more(d, job, e);
        assert forall|name: Seq<char>| #[trigger] settled_kept(d.kept(name)) == settled_kept(
            db.kept(name),
        ) by {
            assert(settled_kept(d.kept(name)) == settled_kept(after.kept(name)));
            assert(settled_kept(db.kept(name)) == settled_kept(after.kept(name)));
        }
        assert(keeps_same(db, d));
    }
}

/// Where a write that stores nothing cannot go on, a state that keeps the same refuses to.
proof fn lemma_broken_off(mid: Database, db: Database, a: Applied, op: Op, e: Error)
    requires
        breaks_off(mid, db, a, op@, e),
    ensures
        mid.only_numbers(db),
        exists|d: Database| #[trigger]
            keeps_same(db, d) && ((exists|si: usize| #[trigger]
                d.rebuild_refused(subject(op@), si, e)) || d.flush_refused(e)),
{
    let name = choose|name: String|
        name@ == subject(op@) && #[trigger] first_job(name, a).halts(mid, db, e);
    let first = first_job(name, a);
    assert forall|x: Seq<char>| #[trigger] settled_kept(mid.kept(x)) == settled_kept(
        db.kept(x),
    ) by {
        assert(mid.kept(x) == db.kept(x));
    }
    assert(keeps_same(db, mid));
    let i = next_worn(mid, first.name@, first.done.rebuild@, 0);
    if i < first.done.rebuild@.len() {
        assert(mid.rebuild_refused(subject(op@), first.done.rebuild@[i], e));
    }
}

/// Where there is space, and every collection is in the manifest, a write does not break off.
proof fn lemma_not_broken_off<N, S>(
    before: Database,
    mid: Database,
    db: Database,
    op: Op,
    kernel: Kernel<N, S>,
    a: Applied,
    e: Error,
) where N: Fn(&[u32]) -> u32, S: Fn(Metric, &[u32], u32, &[u32], u32) -> u32
    requires
        before.valid(),
        before.applies(mid, op, kernel, a),
        mid.only_numbers(db),
        db.valid(),
        enlisted(db),
        spacious(before, points_in(op@)),
    ensures
        !breaks_off(mid, db, a, op@, e),
{
    lemma_space_left(before, mid, op, kernel, a);
    if breaks_off(mid, db, a, op@, e) {
        let name = choose|name: String|
            name@ == subject(op@) && #[trigger] first_job(name, a).halts(mid, db, e);
        let first = first_job(name, a);
        lemma_seated(before, mid, op, kernel, first);
        assert(keeps_same(mid, mid));
        assert(first.closes(mid, mid));
        lemma_never_sticks(first, mid, mid, db, e);
    }
}

/// Whether an error says that a job cannot go on.
pub open spec fn gets_stuck_by(e: Error) -> bool {
    !(e is Io) && !(e is Serde) && e != Error::Invalid(Invalid::NumbersUsedUp)
}

/// Where a job cannot go on, a state that keeps the same refuses more.
proof fn lemma_sticks(
    begun: Job,
    start: Database,
    before: Database,
    first: Job,
    db: Database,
    e: Error,
)
    requires
        keeps_same(start, before),
        exists|mid: Database| #[trigger] first.closes(before, mid) && first.halts(mid, db, e),
        rank(first) == 2 ==> rank(begun) == 2 && first.name == begun.name && first.done
            == begun.done,
        first.closable(before),
    ensures
        gets_stuck(start, begun, e),
        forall|more: nat| #[trigger] spacious(before, more) ==> spacious(db, more),
        db.options == before.options,
        same_roster(before, db, 1),
{
    let mid = choose|mid: Database| #[trigger]
        first.closes(before, mid) && first.halts(mid, db, e);
    lemma_keeps_through(start, before, mid);
    lemma_closes_roster(first, before, mid);
    assert forall|more: nat| #[trigger] spacious(before, more) implies spacious(db, more) by {
        lemma_closes_fewer(first, before, mid, more);
    }
    assert(refuses_more(mid, begun, e));
    assert(keeps_same(start, mid));
    assert(mid.options == before.options) by {
        lemma_closes_options(first, before, mid);
    }
}

/// Closing a stage leaves the options alone.
proof fn lemma_closes_options(job: Job, db: Database, after: Database)
    requires
        job.closes(db, after),
    ensures
        after.options == db.options,
        after.next_seg_id == db.next_seg_id,
{
}

/// Where there is space, and every collection is in the manifest, a job does not get stuck.
proof fn lemma_never_sticks(first: Job, before: Database, mid: Database, db: Database, e: Error)
    requires
        first.closable(before),
        first.seated(before),
        first.closes(before, mid),
        mid.only_numbers(db),
        enlisted(db),
        spacious(before, 0),
    ensures
        !first.halts(mid, db, e),
{
    let list = first.done.rebuild@;
    let i = next_worn(mid, first.name@, list, first.next as int);
    lemma_next_worn(mid, first.name@, list, first.next as int);
    lemma_closes_fewer(first, before, mid, 0);
    lemma_closes_names(first, before, mid, first.name@);
    assert(enlisted(mid));
    if first.halts(mid, db, e) {
        if i < list.len() {
            lemma_rebuild_goes(mid, first.name@, list[i], e);
        } else {
            lemma_flush_goes(mid, e);
        }
    }
}

/// How a job goes on once its stage was closed.
proof fn lemma_leads_on<N, S>(
    mid: Database,
    first: Job,
    db: Database,
    job: Job,
    next_lsn: u64,
    kernel: Kernel<N, S>,
) where N: Fn(&[u32]) -> u32, S: Fn(Metric, &[u32], u32, &[u32], u32) -> u32
    requires
        first.leads(mid, db, job, next_lsn, kernel),
        !(first.stage is Done),
    ensures
        db.collections == mid.collections,
        db.options == mid.options,
        has_numbers(mid, first) ==> has_numbers(db, job),
        last_number(db, job) <= last_number(mid, first),
        rank(job) == 2 ==> rank(first) == 2 && job.name == first.name && job.done == first.done,
        job.stage matches Stage::Flush(plan) ==> first.done.need_flush && rank(first) == 2
            && mid.flush_planned(plan, next_lsn, kernel) && mid.only_numbers(db),
        rank(first) == 2 && first.done.need_flush ==> rank(job) == 2 || job.stage is Flush,
{
    lemma_next_worn(mid, first.name@, first.done.rebuild@, first.next as int);
    if let Stage::Flush(plan) = job.stage {
        lemma_flushes(mid, plan.at@);
    }
}

/// What stays as it is while a job goes on.
proof fn lemma_goes_on<N, S>(
    begun: Job,
    start: Database,
    before: Database,
    first: Job,
    db: Database,
    job: Job,
    next_lsn: u64,
    kernel: Kernel<N, S>,
    empty: bool,
) where N: Fn(&[u32]) -> u32, S: Fn(Metric, &[u32], u32, &[u32], u32) -> u32
    requires
        first.fits(before),
        next_lsn > 0,
        first.at < first.steps().len() <= usize::MAX,
        first.at + 1 < first.steps().len() ==> db == before && job == (Job {
            at: (first.at + 1) as usize,
            ..first
        }),
        first.at + 1 == first.steps().len() ==> exists|mid: Database| #[trigger]
            first.closes(before, mid) && first.leads(mid, db, job, next_lsn, kernel),
        rank(first) == 2 ==> rank(begun) == 2 && first.name == begun.name && first.done
            == begun.done,
        first.steps()[first.at as int] is ResetLog ==> empty,
        rank(first) == 2 && first.tends(before) ==> job.tends(db),
    ensures
        forall|more: nat| #[trigger] spacious(before, more) ==> spacious(db, more),
        has_numbers(before, first) ==> has_numbers(db, job),
        last_number(db, job) <= last_number(before, first),
        db.options == before.options,
        same_roster(
            before,
            db,
            if job.stage is Done {
                1int
            } else {
                0int
            },
        ),
        rank(job) == 2 ==> rank(begun) == 2 && job.name == begun.name && job.done == begun.done,
        begun.done.need_flush && rank(begun) == 2 && (exists|was: bool|
            flushing(begun, before, first, next_lsn, kernel, was)) ==> flushing(
            begun,
            db,
            job,
            next_lsn,
            kernel,
            empty,
        ),
        !begun.done.need_flush && mending(begun, before, first) ==> mending(begun, db, job),
{
    if first.at + 1 < first.steps().len() {
        assert(job.steps() == first.steps());
    } else {
        let mid = choose|mid: Database| #[trigger]
            first.closes(before, mid) && first.leads(mid, db, job, next_lsn, kernel);
        lemma_closes_options(first, before, mid);
        lemma_closes_roster(first, before, mid);
        assert forall|more: nat| #[trigger] spacious(before, more) implies spacious(db, more) by {
            lemma_closes_fewer(first, before, mid, more);
        }
        lemma_leads_on(mid, first, db, job, next_lsn, kernel);
        if begun.done.need_flush {
            if let Stage::Flush(plan) = first.stage {
                if exists|d: Database| #[trigger]
                    d.flush_planned(plan, next_lsn, kernel) && d.only_numbers(before) {
                    let d = choose|d: Database| #[trigger]
                        d.flush_planned(plan, next_lsn, kernel) && d.only_numbers(before);
                    let n = d.collections.len();
                    assert(n == d.collections@.len());
                    lemma_nothing_left(d, before, db, plan, next_lsn, kernel);
                }
            }
        }
    }
}

/// A state keeps what it keeps.
proof fn lemma_keeps_same(db: Database)
    ensures
        keeps_same(db, db),
{
}

/// What an operation comes to, where what was kept stayed the same before and after it.
proof fn lemma_comes_to(
    start: Database,
    before: Database,
    mid: Database,
    after: Database,
    op: OpView,
)
    requires
        keeps_same(start, before),
        before.follows(mid, op),
        keeps_same(mid, after),
        start.apart() ==> before.apart(),
    ensures
        start.apart() ==> forall|name: Seq<char>| #[trigger]
            settled_kept(after.kept(name)) == settled_kept(outcome(start.kept(name), op, name)),
{
    if start.apart() {
        assert forall|name: Seq<char>| #[trigger] settled_kept(after.kept(name)) == settled_kept(
            outcome(start.kept(name), op, name),
        ) by {
            assert(settled_kept(after.kept(name)) == settled_kept(mid.kept(name)));
            assert(mid.kept(name) == outcome(before.kept(name), op, name));
            assert(settled_kept(before.kept(name)) == settled_kept(start.kept(name)));
            law_outcome_settles(before.kept(name), start.kept(name), op, name);
        }
    }
}

/// An operation adds one collection at most.
proof fn lemma_one_more<N, S>(
    db: Database,
    after: Database,
    op: Op,
    kernel: Kernel<N, S>,
    a: Applied,
) where N: Fn(&[u32]) -> u32, S: Fn(Metric, &[u32], u32, &[u32], u32) -> u32
    requires
        db.applies(after, op, kernel, a),
    ensures
        after.collections@.len() <= db.collections@.len() + 1,
{
    lemma_coll_from(db.collections@, subject(op@), 0);
}

/// Numbers that were taken change nothing that is kept.
proof fn lemma_keeps_numbers(start: Database, before: Database, after: Database)
    requires
        keeps_same(start, before),
        before.only_numbers(after),
    ensures
        keeps_same(start, after),
{
    lemma_keeps_on(start, before, before, after);
}

/// What is kept stays the same through two pieces of work.
proof fn lemma_keeps_through(start: Database, mid: Database, after: Database)
    requires
        keeps_same(start, mid),
        keeps_same(mid, after),
    ensures
        keeps_same(start, after),
{
    assert forall|name: Seq<char>| #[trigger] settled_kept(after.kept(name)) == settled_kept(
        start.kept(name),
    ) by {
        assert(settled_kept(after.kept(name)) == settled_kept(mid.kept(name)));
        assert(settled_kept(mid.kept(name)) == settled_kept(start.kept(name)));
    }
}

/// Collections that have rows in memory are among those to be flushed.
proof fn lemma_all_unflushed(colls: Seq<Collection>, order: Seq<usize>, n: nat, k: int)
    requires
        0 <= k < n <= order.len(),
        colls[order[k] as int].view.mutable.rows().len() > 0,
    ensures
        unflushed(colls, order, n).contains(order[k]),
    decreases n,
{
    let all = unflushed(colls, order, n);
    let rest = unflushed(colls, order, (n - 1) as nat);
    if k == n - 1 {
        assert(all[rest.len() as int] == order[k]);
    } else {
        lemma_all_unflushed(colls, order, (n - 1) as nat, k);
        let j = choose|j: int| 0 <= j < rest.len() && rest[j] == order[k];
        assert(all[j] == order[k]);
    }
}

/// Once a flush was carried out, no rows are in memory, and all records are in segments.
proof fn lemma_nothing_left<N, S>(
    before: Database,
    after: Database,
    db: Database,
    plan: FlushPlan,
    next_lsn: u64,
    kernel: Kernel<N, S>,
) where N: Fn(&[u32]) -> u32, S: Fn(Metric, &[u32], u32, &[u32], u32) -> u32
    requires
        before.flush_planned(plan, next_lsn, kernel),
        before.only_numbers(after),
        after.flush_committed(db, plan),
        before.collections@.len() <= usize::MAX,
        next_lsn > 0,
    ensures
        db.manifest@.last_flushed_lsn == next_lsn - 1,
        forall|i: int|
            0 <= i < db.collections@.len() ==> (
            #[trigger] db.collections@[i]).view.mutable.rows().len() == 0,
{
    let colls = before.collections@;
    let order = choose|order: Seq<usize>| #[trigger]
        by_name(colls, order) && order.len() == colls.len() && plan.at@ == unflushed(
            colls,
            order,
            order.len(),
        );
    assert forall|i: int| 0 <= i < db.collections@.len() implies (
    #[trigger] db.collections@[i]).view.mutable.rows().len() == 0 by {
        let x = i as usize;
        assert(order.contains(x));
        let k = choose|k: int| 0 <= k < order.len() && order[k] == x;
        if plan.at@.contains(x) {
            let j = choose|j: int| 0 <= j < plan.at@.len() && plan.at@[j] == x;
            let seg = plan.segs@[j];
            assert(flushed_to(after.collections@[i], db.collections@[i], seg));
        } else {
            assert(db.collections@[x as int] == after.collections@[x as int]);
            if colls[i].view.mutable.rows().len() > 0 {
                lemma_all_unflushed(colls, order, order.len(), k);
            }
        }
    }
}

/// The steps of compacting a collection can be taken.
proof fn lemma_compact_fresh<N, S>(
    db: Database,
    name: Seq<char>,
    disk: Disk,
    plan: RenewPlan,
    kernel: Kernel<N, S>,
    m: MutableSegment,
) where N: Fn(&[u32]) -> u32, S: Fn(Metric, &[u32], u32, &[u32], u32) -> u32
    requires
        db.compact_planned(name, plan, kernel, m),
    ensures
        fresh(trimmed(disk, db.next_seg_id), plan.steps@, 0),
{
    let c = db.collections@[plan.at as int];
    lemma_renew_fresh(
        disk,
        plan.steps@,
        plan.seg,
        db.next_seg_id,
        m,
        plan.manifest@,
        numbers(c.view.immutables@),
    );
}

/// Once a collection was compacted, it is compact.
proof fn lemma_compacted<N, S>(
    before: Database,
    after: Database,
    db: Database,
    name: Seq<char>,
    plan: RenewPlan,
    kernel: Kernel<N, S>,
    m: MutableSegment,
) where N: Fn(&[u32]) -> u32, S: Fn(Metric, &[u32], u32, &[u32], u32) -> u32
    requires
        before.compact_planned(name, plan, kernel, m),
        before.only_numbers(after),
        after.compact_committed(db, plan),
    ensures
        is_compact(db, name),
{
    let c = plan.at as int;
    lemma_coll_from(before.collections@, name, 0);
    lemma_coll_from(db.collections@, name, 0);
    let x = coll_at(db.collections@, name);
    if x < c {
        assert(db.collections@[x] == before.collections@[x]);
    } else if x > c {
        assert(db.collections@[c].name@ != name);
    }
    assert(x == c);
    let view = db.collections@[c].view;
    let was = before.collections@[c].view;
    assert(view.mutable.rows() == view.mutable.table().rows);
    let rows = renormed(was.chronicle(), kernel);
    lemma_no_dead(rows);
    assert(m.dead() == m.table().dead);
    m.lemma_all_alive();
    assert(view.contents() == settled_live(was.contents()));
    if plan.seg is Some {
        assert(m.live().len() > 0);
        assert(was.contents().dom().len() > 0);
        if view.contents() == Map::<IdView, Entry>::empty() {
            assert(was.contents().dom() =~= view.contents().dom());
        }
    } else {
        lemma_no_points(m);
        assert(view.contents() =~= Map::<IdView, Entry>::empty());
    }
    let entries = before.manifest@.entries;
    let e = entry_at(entries, name);
    let now = db.manifest@.entries;
    lemma_entry_from(entries, name, 0);
    lemma_entry_from(now, name, 0);
    let y = entry_at(now, name);
    assert(now[e].name == entries[e].name);
    if y < e {
        assert(now[y] == entries[y]);
    }
    assert(y == e);
    assert(now[e].segments =~= numbers(view.immutables@));
}

impl Database {
    /// Whether the rows of every collection can be counted.
    fn rows_fit(&self) -> (r: bool)
        ensures
            r == rows_countable(*self),
    {
        let mut i: usize = 0;
        while i < self.collections.len()
            invariant
                i <= self.collections@.len(),
                forall|x: int|
                    0 <= x < i ==> (#[trigger] self.collections@[x]).view.rows_total() <= u64::MAX,
            decreases self.collections.len() - i,
        {
            let view = &self.collections[i].view;
            let ghost segs = view.immutables@;
            let mut sum: u64 = view.mutable.total() as u64;
            let mut j: usize = 0;
            while j < view.immutables.len()
                invariant
                    j <= segs.len(),
                    segs == view.immutables@,
                    i < self.collections@.len(),
                    *view == self.collections@[i as int].view,
                    sum == view.mutable.rows().len() + rows_in(segs.take(j as int)),
                decreases view.immutables.len() - j,
            {
                assert(segs.take(j + 1).drop_last() =~= segs.take(j as int));
                match sum.checked_add(view.immutables[j].total() as u64) {
                    Some(n) => {
                        sum = n;
                    },
                    None => {
                        proof {
                            lemma_rows_grow(segs, j + 1);
                            assert(self.collections@[i as int].view.rows_total() > u64::MAX);
                        }
                        return false;
                    },
                }
                j = j + 1;
            }
            assert(segs.take(j as int) =~= segs);
            i = i + 1;
        }
        true
    }
}

/// The first segments have no more rows than all.
proof fn lemma_rows_grow(segs: Seq<ImmutableSegment>, n: int)
    requires
        0 <= n <= segs.len(),
    ensures
        rows_in(segs.take(n)) <= rows_in(segs),
    decreases segs.len(),
{
    if n == segs.len() {
        assert(segs.take(n) =~= segs);
    } else {
        lemma_rows_grow(segs.drop_last(), n);
        assert(segs.drop_last().take(n) =~= segs.take(n));
    }
}

/// What is kept stays the same through a stage.
proof fn lemma_keeps_on(start: Database, before: Database, mid: Database, after: Database)
    requires
        keeps_same(start, before),
        keeps_same(before, mid),
        mid.only_numbers(after),
    ensures
        keeps_same(start, after),
        mid.apart() ==> after.apart(),
{
    lemma_only_numbers(mid, after);
    assert forall|name: Seq<char>| #[trigger] settled_kept(after.kept(name)) == settled_kept(
        start.kept(name),
    ) by {
        assert(after.kept(name) == mid.kept(name));
        assert(settled_kept(mid.kept(name)) == settled_kept(before.kept(name)));
        assert(settled_kept(before.kept(name)) == settled_kept(start.kept(name)));
    }
}

} // verus!
