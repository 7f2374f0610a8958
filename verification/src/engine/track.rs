//! What becomes of the segments once the work that follows from a write was done.

use vstd::prelude::*;
use vstd::utf8::encode_utf8;

use crate::engine::apply::Applied;
use crate::engine::database::{coll_at, lemma_coll_from, Collection, Database, Step};
use crate::engine::job::{first_job, lemma_no_dead, next_worn, Job, Stage};
use crate::engine::merge::{live_rows, made, renormed};
use crate::engine::plan::{by_name, flushed_to, lemma_stores_made, lemma_unflushed, unflushed, FlushPlan};
use crate::engine::recover::{lemma_rebuilds_more, rebuilds, rebuilds_one};
use crate::engine::renew::{lemma_no_points, RenewPlan};
use crate::engine::write::worn_list;
use crate::id::IdView;
use crate::json::JsonView;
use crate::kernel::{Kernel, Metric};
use crate::segment::immutable::{settled_live, ImmutableSegment};
use crate::segment::mutable::MutableSegment;
use crate::segment::Entry;
use crate::text::{lemma_bytes_total, text_before};

verus! {

/// Whether some segments of a collection were rebuilt, one after the other.
pub open spec fn rebuilt<N, S>(
    start: Database,
    after: Database,
    name: Seq<char>,
    list: Seq<usize>,
    kernel: Kernel<N, S>,
) -> bool where N: Fn(&[u32]) -> u32, S: Fn(Metric, &[u32], u32, &[u32], u32) -> u32 {
    exists|steps: Seq<Step>| #[trigger] rebuilds(start, after, name, list, kernel, steps)
}

/// Whether a flush led from one state to another: all collections with rows in memory have one
/// more segment, with the index that is configured, and with the next numbers in the order of
/// their names.
pub open spec fn flushed_as<N, S>(
    before: Database,
    after: Database,
    next_lsn: u64,
    kernel: Kernel<N, S>,
) -> bool where N: Fn(&[u32]) -> u32, S: Fn(Metric, &[u32], u32, &[u32], u32) -> u32 {
    exists|plan: FlushPlan, mid: Database| #[trigger]
        before.flush_planned(plan, next_lsn, kernel) && before.only_numbers(mid)
            && mid.next_seg_id == before.next_seg_id + plan.at@.len()
            && #[trigger] mid.flush_committed(after, plan)
}

/// Whether compacting a collection led from one state to another: the new segment has the next
/// number, and the index that is configured.
pub open spec fn compacted_as<N, S>(
    before: Database,
    after: Database,
    name: Seq<char>,
    kernel: Kernel<N, S>,
) -> bool where N: Fn(&[u32]) -> u32, S: Fn(Metric, &[u32], u32, &[u32], u32) -> u32 {
    exists|plan: RenewPlan, m: MutableSegment, mid: Database|
        #![trigger before.compact_planned(name, plan, kernel, m), mid.compact_committed(after, plan)]
        before.compact_planned(name, plan, kernel, m) && before.took(mid, plan.seg)
            && mid.compact_committed(after, plan)
}

/// Whether what follows from a write led from one state to another: the segments that are worth
/// it were rebuilt, and then there was a flush if one was due.
pub open spec fn finished<N, S>(
    mid: Database,
    after: Database,
    name: Seq<char>,
    a: Applied,
    next_lsn: u64,
    kernel: Kernel<N, S>,
) -> bool where N: Fn(&[u32]) -> u32, S: Fn(Metric, &[u32], u32, &[u32], u32) -> u32 {
    exists|d: Database| #[trigger]
        rebuilt(mid, d, name, a.rebuild@, kernel) && if a.need_flush {
            flushed_as(d, after, next_lsn, kernel)
        } else {
            after == d
        }
}

/// Whether a job follows from a write that led to `mid`, and has come this far.
pub open spec fn tracks<N, S>(
    mid: Database,
    name: Seq<char>,
    a: Applied,
    db: Database,
    job: Job,
    next_lsn: u64,
    kernel: Kernel<N, S>,
) -> bool where N: Fn(&[u32]) -> u32, S: Fn(Metric, &[u32], u32, &[u32], u32) -> u32 {
    let list = a.rebuild@;
    match job.stage {
        Stage::Write => db == mid && job.next == 0 && job.done == a && job.name@ == name,
        Stage::Rebuild(si, plan) => {
            &&& job.done == a
            &&& job.name@ == name
            &&& 0 < job.next <= list.len()
            &&& list[job.next - 1] == si
            &&& exists|d: Database, m: MutableSegment|
                #![trigger d.rebuild_planned(name, si, plan, kernel, m)]
                rebuilt(mid, d, name, list.take(job.next - 1), kernel) && d.rebuild_planned(
                    name,
                    si,
                    plan,
                    kernel,
                    m,
                ) && d.took(db, plan.seg)
        },
        Stage::Flush(plan) => a.need_flush && exists|d: Database| #[trigger]
            d.flush_planned(plan, next_lsn, kernel) && rebuilt(mid, d, name, list, kernel)
                && d.only_numbers(db) && db.next_seg_id == d.next_seg_id + plan.at@.len(),
        Stage::Compact(_) => false,
        Stage::Done => finished(mid, db, name, a, next_lsn, kernel),
    }
}

/// Segments that are not there any more need not be rebuilt.
proof fn lemma_skipped<N, S>(
    mid: Database,
    db: Database,
    name: Seq<char>,
    list: Seq<usize>,
    kernel: Kernel<N, S>,
    k: int,
) where N: Fn(&[u32]) -> u32, S: Fn(Metric, &[u32], u32, &[u32], u32) -> u32
    requires
        0 <= k <= list.len(),
        rebuilt(mid, db, name, list.take(k), kernel),
    ensures
        k <= next_worn(db, name, list, k) <= list.len(),
        rebuilt(mid, db, name, list.take(next_worn(db, name, list, k)), kernel),
    decreases list.len() - k,
{
    let c = coll_at(db.collections@, name);
    lemma_coll_from(db.collections@, name, 0);
    if k < list.len() && c < db.collections@.len() && list[k]
        >= db.collections@[c].view.immutables@.len() {
        let steps = choose|steps: Seq<Step>| #[trigger]
            rebuilds(mid, db, name, list.take(k), kernel, steps);
        let none = Seq::<Step>::empty();
        assert(rebuilds_one(db, db, name, list[k], kernel, none));
        lemma_rebuilds_more(mid, db, db, name, list, k, kernel, steps, none);
        lemma_skipped(mid, db, name, list, kernel, k + 1);
    }
}

/// Once a stage was closed, a job still follows from its write.
proof fn lemma_tracks_on<N, S>(
    mid: Database,
    name: Seq<char>,
    a: Applied,
    closed: Database,
    first: Job,
    db: Database,
    job: Job,
    next_lsn: u64,
    kernel: Kernel<N, S>,
) where N: Fn(&[u32]) -> u32, S: Fn(Metric, &[u32], u32, &[u32], u32) -> u32
    requires
        first.stage is Write || first.stage is Rebuild,
        first.done == a,
        first.name@ == name,
        first.next <= a.rebuild@.len(),
        rebuilt(mid, closed, name, a.rebuild@.take(first.next as int), kernel),
        first.leads(closed, db, job, next_lsn, kernel),
    ensures
        tracks(mid, name, a, db, job, next_lsn, kernel),
{
    let list = a.rebuild@;
    let i = next_worn(closed, name, list, first.next as int);
    lemma_skipped(mid, closed, name, list, kernel, first.next as int);
    if i < list.len() {
        if let Stage::Rebuild(si, plan) = job.stage {
            let m = choose|m: MutableSegment| #[trigger]
                closed.rebuild_planned(name, si, plan, kernel, m);
            assert(closed.rebuild_planned(name, si, plan, kernel, m));
        }
    } else {
        assert(list.take(i) =~= list);
        if a.need_flush {
            if let Stage::Flush(plan) = job.stage {
                assert(closed.flush_planned(plan, next_lsn, kernel));
            }
        } else {
            assert(rebuilt(mid, closed, name, list, kernel));
        }
    }
}

/// A job that goes on still follows from its write.
pub proof fn lemma_tracks<N, S>(
    mid: Database,
    name: Seq<char>,
    a: Applied,
    before: Database,
    first: Job,
    db: Database,
    job: Job,
    next_lsn: u64,
    kernel: Kernel<N, S>,
) where N: Fn(&[u32]) -> u32, S: Fn(Metric, &[u32], u32, &[u32], u32) -> u32
    requires
        tracks(mid, name, a, before, first, next_lsn, kernel),
        first.at < first.steps().len(),
        first.at + 1 < first.steps().len() ==> db == before && job == (Job {
            at: (first.at + 1) as usize,
            ..first
        }),
        first.at + 1 == first.steps().len() ==> exists|closed: Database| #[trigger]
            first.closes(before, closed) && first.leads(closed, db, job, next_lsn, kernel),
    ensures
        tracks(mid, name, a, db, job, next_lsn, kernel),
{
    if first.at + 1 == first.steps().len() {
        let closed = choose|closed: Database| #[trigger]
            first.closes(before, closed) && first.leads(closed, db, job, next_lsn, kernel);
        let list = a.rebuild@;
        match first.stage {
            Stage::Write => {
                let none = Seq::<Step>::empty();
                assert(list.take(0) =~= Seq::<usize>::empty());
                assert(rebuilds(mid, mid, name, list.take(0), kernel, none));
                lemma_tracks_on(mid, name, a, closed, first, db, job, next_lsn, kernel);
            },
            Stage::Rebuild(si, plan) => {
                let (d, m) = choose|d: Database, m: MutableSegment|
                    #![trigger d.rebuild_planned(name, si, plan, kernel, m)]
                    rebuilt(mid, d, name, list.take(first.next - 1), kernel) && d.rebuild_planned(
                        name,
                        si,
                        plan,
                        kernel,
                        m,
                    ) && d.took(before, plan.seg);
                let steps = choose|steps: Seq<Step>| #[trigger]
                    rebuilds(mid, d, name, list.take(first.next - 1), kernel, steps);
                assert(rebuilds_one(d, closed, name, si, kernel, plan.steps@)) by {
                    assert(d.rebuild_planned(name, si, plan, kernel, m) && d.took(before, plan.seg));
                }
                lemma_rebuilds_more(
                    mid,
                    d,
                    closed,
                    name,
                    list,
                    first.next - 1,
                    kernel,
                    steps,
                    plan.steps@,
                );
                lemma_tracks_on(mid, name, a, closed, first, db, job, next_lsn, kernel);
            },
            Stage::Flush(plan) => {
                let d = choose|d: Database| #[trigger]
                    d.flush_planned(plan, next_lsn, kernel) && rebuilt(mid, d, name, list, kernel)
                        && d.only_numbers(before) && before.next_seg_id == d.next_seg_id
                        + plan.at@.len();
                assert(before.flush_committed(db, plan));
                assert(flushed_as(d, db, next_lsn, kernel));
            },
            _ => {},
        }
    }
}

/// A job that a write starts with follows from it.
pub proof fn lemma_tracks_first<N, S>(
    mid: Database,
    name: String,
    a: Applied,
    after: Database,
    job: Job,
    next_lsn: u64,
    kernel: Kernel<N, S>,
) where N: Fn(&[u32]) -> u32, S: Fn(Metric, &[u32], u32, &[u32], u32) -> u32
    requires
        ({
            let first = first_job(name, a);
            if a.steps@.len() > 0 {
                job == first && after == mid
            } else {
                first.leads(mid, after, job, next_lsn, kernel)
            }
        }),
    ensures
        tracks(mid, name@, a, after, job, next_lsn, kernel),
{
    let first = first_job(name, a);
    if a.steps@.len() == 0 {
        let none = Seq::<Step>::empty();
        let list = a.rebuild@;
        assert(list.take(0) =~= Seq::<usize>::empty());
        assert(rebuilds(mid, mid, name@, list.take(0), kernel, none));
        lemma_tracks_on(mid, name@, a, mid, first, after, job, next_lsn, kernel);
    }
}

/// Whether a segment is another one without its dead rows, and with its new payloads among the
/// others.
pub open spec fn renewed(old_seg: ImmutableSegment, seg: ImmutableSegment) -> bool {
    &&& seg.valid()
    &&& seg.dead() == Set::<u32>::empty()
    &&& seg.over() == Map::<IdView, Option<JsonView>>::empty()
    &&& seg.live() == settled_live(old_seg.live())
}

/// Whether segments are others once those that are worth rebuilding were rebuilt: one without
/// points is gone, and all that are not worth it are as they were.
pub open spec fn tended(segs: Seq<ImmutableSegment>, out: Seq<ImmutableSegment>) -> bool
    decreases segs.len(),
{
    if segs.len() == 0 {
        out.len() == 0
    } else if !segs[0].worn() {
        out.len() > 0 && out[0] == segs[0] && tended(segs.drop_first(), out.drop_first())
    } else if segs[0].live() == Map::<IdView, Entry>::empty() {
        tended(segs.drop_first(), out)
    } else {
        out.len() > 0 && renewed(segs[0], out[0]) && tended(segs.drop_first(), out.drop_first())
    }
}

/// Whether the segments of a collection that are worth it were rebuilt, and nothing else changed.
pub open spec fn tends_to(mid: Database, after: Database, name: Seq<char>) -> bool {
    let c = coll_at(mid.collections@, name);
    &&& coll_at(after.collections@, name) == c
    &&& after.collections@.len() == mid.collections@.len()
    &&& forall|i: int|
        0 <= i < mid.collections@.len() && i != c ==> #[trigger] after.collections@[i]
            == mid.collections@[i]
    &&& c < mid.collections@.len() ==> {
        &&& after.collections@[c].name == mid.collections@[c].name
        &&& after.collections@[c].config == mid.collections@[c].config
        &&& after.collections@[c].view.mutable == mid.collections@[c].view.mutable
        &&& tended(
            mid.collections@[c].view.immutables@,
            after.collections@[c].view.immutables@,
        )
    }
}

/// How far the segments of a collection were rebuilt: those from place `b` on were, and the
/// others are as they were.
spec fn tended_from(mid: Database, db: Database, c: int, b: int) -> bool {
    let segs = mid.collections@[c].view.immutables@;
    let now = db.collections@[c].view.immutables@;
    &&& db.collections@.len() == mid.collections@.len()
    &&& forall|i: int|
        0 <= i < mid.collections@.len() && i != c ==> #[trigger] db.collections@[i]
            == mid.collections@[i]
    &&& db.collections@[c].name == mid.collections@[c].name
    &&& db.collections@[c].config == mid.collections@[c].config
    &&& db.collections@[c].view.mutable == mid.collections@[c].view.mutable
    &&& 0 <= b <= segs.len()
    &&& b <= now.len()
    &&& now.take(b) == segs.take(b)
    &&& tended(segs.skip(b), now.skip(b))
}

/// Segments that are not worth rebuilding stay as they are.
proof fn lemma_tended_down(
    segs: Seq<ImmutableSegment>,
    now: Seq<ImmutableSegment>,
    b: int,
    p: int,
)
    requires
        0 <= p <= b <= segs.len(),
        b <= now.len(),
        now.take(b) == segs.take(b),
        tended(segs.skip(b), now.skip(b)),
        forall|x: int| p <= x < b ==> !(#[trigger] segs[x]).worn(),
    ensures
        now.take(p) == segs.take(p),
        tended(segs.skip(p), now.skip(p)),
    decreases b - p,
{
    if p < b {
        let x = b - 1;
        assert(now[x] == now.take(b)[x] && segs[x] == segs.take(b)[x]);
        assert(segs.skip(x)[0] == segs[x] && now.skip(x)[0] == now[x]);
        assert(segs.skip(x).drop_first() =~= segs.skip(b));
        assert(now.skip(x).drop_first() =~= now.skip(b));
        assert(now.take(x) =~= segs.take(x)) by {
            assert forall|i: int| 0 <= i < x implies #[trigger] now[i] == segs[i] by {
                assert(now[i] == now.take(b)[i] && segs[i] == segs.take(b)[i]);
            }
        }
        assert(!segs[x].worn());
        lemma_tended_down(segs, now, x, p);
    }
}

/// Rebuilding one more segment.
proof fn lemma_tended_one<N, S>(
    mid: Database,
    db: Database,
    after: Database,
    name: Seq<char>,
    list: Seq<usize>,
    i: int,
    c: int,
    b: int,
    kernel: Kernel<N, S>,
    steps: Seq<Step>,
) where N: Fn(&[u32]) -> u32, S: Fn(Metric, &[u32], u32, &[u32], u32) -> u32
    requires
        mid.valid(),
        c == coll_at(mid.collections@, name),
        c < mid.collections@.len(),
        worn_list(mid.collections@[c].view.immutables@, list),
        0 <= i < list.len(),
        b == (if i == 0 {
            mid.collections@[c].view.immutables@.len() as int
        } else {
            list[i - 1] as int
        }),
        tended_from(mid, db, c, b),
        rebuilds_one(db, after, name, list[i], kernel, steps),
    ensures
        tended_from(mid, after, c, list[i] as int),
{
    let segs = mid.collections@[c].view.immutables@;
    let now = db.collections@[c].view.immutables@;
    let p = list[i] as int;
    lemma_coll_from(mid.collections@, name, 0);
    lemma_coll_from(db.collections@, name, 0);
    assert(coll_at(db.collections@, name) == c) by {
        let y = coll_at(db.collections@, name);
        if y < c {
            assert(db.collections@[y] == mid.collections@[y]);
        } else if y > c {
            assert(db.collections@[c].name@ != name);
        }
    }
    assert(p < b) by {
        if i > 0 {
            assert(list[i - 1] > list[i]);
        }
    }
    let n = mid.collections@[c].view.immutables.len();
    assert(n == segs.len());
    assert forall|x: int| p + 1 <= x < b implies !(#[trigger] segs[x]).worn() by {
        if segs[x].worn() {
            let u = x as usize;
            assert(segs[u as int].worn());
            assert(list.contains(u));
            let j = choose|j: int| 0 <= j < list.len() && list[j] == u;
            if j < i {
                if j < i - 1 {
                    assert(list[j] > list[i - 1]);
                }
            } else if j > i {
                assert(list[i] > list[j]);
            }
        }
    }
    lemma_tended_down(segs, now, b, p + 1);
    assert(now[p] == now.take(p + 1)[p] && segs[p] == segs.take(p + 1)[p]);
    assert(segs[p].worn());
    assert(now.take(p) =~= segs.take(p)) by {
        assert forall|x: int| 0 <= x < p implies #[trigger] now[x] == segs[x] by {
            assert(now[x] == now.take(p + 1)[x] && segs[x] == segs.take(p + 1)[x]);
        }
    }
    let (plan, m, taken) = choose|plan: RenewPlan, m: MutableSegment, taken: Database|
        #![trigger db.rebuild_planned(name, list[i], plan, kernel, m), db.took(taken, plan.seg)]
        db.rebuild_planned(name, list[i], plan, kernel, m) && db.took(taken, plan.seg)
            && taken.rebuild_committed(after, list[i], plan) && steps == plan.steps@;
    let then = after.collections@[c].view.immutables@;
    let rows = renormed(live_rows(segs[p].rows(), segs[p].dead()), kernel);
    lemma_no_dead(rows);
    assert(segs.skip(p)[0] == segs[p]);
    assert(segs.skip(p).drop_first() =~= segs.skip(p + 1));
    match plan.seg {
        Some(s) => {
            m.lemma_all_alive();
            assert(m.rows().len() > 0);
            assert(segs[p].live() != Map::<IdView, Entry>::empty()) by {
                if segs[p].live() == Map::<IdView, Entry>::empty() {
                    assert(m.live().dom() =~= Set::<IdView>::empty());
                }
            }
            assert(m.dead() == m.table().dead);
            assert(renewed(segs[p], s));
            assert(then == now.update(p, s));
            assert(then.skip(p)[0] == s);
            assert(then.skip(p).drop_first() =~= now.skip(p + 1));
            assert(then.take(p) =~= now.take(p));
        },
        None => {
            lemma_no_points(m);
            assert(then == now.remove(p));
            assert(then.skip(p) =~= now.skip(p + 1));
            assert(then.take(p) =~= now.take(p));
        },
    }
    assert forall|x: int| 0 <= x < mid.collections@.len() && x != c implies #[trigger]
        after.collections@[x] == mid.collections@[x] by {
        assert(taken.collections@[x] == db.collections@[x]);
    }
}

/// Rebuilding the first of some segments.
proof fn lemma_tended_all<N, S>(
    mid: Database,
    after: Database,
    name: Seq<char>,
    list: Seq<usize>,
    i: int,
    c: int,
    kernel: Kernel<N, S>,
    steps: Seq<Step>,
) where N: Fn(&[u32]) -> u32, S: Fn(Metric, &[u32], u32, &[u32], u32) -> u32
    requires
        mid.valid(),
        c == coll_at(mid.collections@, name),
        c < mid.collections@.len(),
        worn_list(mid.collections@[c].view.immutables@, list),
        0 <= i <= list.len(),
        rebuilds(mid, after, name, list.take(i), kernel, steps),
    ensures
        tended_from(
            mid,
            after,
            c,
            if i == 0 {
                mid.collections@[c].view.immutables@.len() as int
            } else {
                list[i - 1] as int
            },
        ),
    decreases i,
{
    let segs = mid.collections@[c].view.immutables@;
    lemma_coll_from(mid.collections@, name, 0);
    if i == 0 {
        assert(segs.skip(segs.len() as int) =~= Seq::<ImmutableSegment>::empty());
    } else {
        let all = list.take(i);
        let (db, n) = choose|db: Database, n: int|
            0 <= n <= steps.len() && #[trigger] rebuilds_one(
                db,
                after,
                name,
                all.last(),
                kernel,
                steps.skip(n),
            ) && rebuilds(mid, db, name, all.drop_last(), kernel, steps.take(n));
        assert(all.drop_last() =~= list.take(i - 1));
        assert(all.last() == list[i - 1]);
        lemma_tended_all(mid, db, name, list, i - 1, c, kernel, steps.take(n));
        lemma_tended_one(
            mid,
            db,
            after,
            name,
            list,
            i - 1,
            c,
            if i - 1 == 0 {
                segs.len() as int
            } else {
                list[i - 2] as int
            },
            kernel,
            steps.skip(n),
        );
    }
}

/// Rebuilding the segments that are worth it changes those only: the others are as they were, and
/// one that has no points left is gone.
pub proof fn law_only_worn_segments_are_rebuilt<N, S>(
    mid: Database,
    after: Database,
    name: Seq<char>,
    list: Seq<usize>,
    kernel: Kernel<N, S>,
) where N: Fn(&[u32]) -> u32, S: Fn(Metric, &[u32], u32, &[u32], u32) -> u32
    requires
        mid.valid(),
        coll_at(mid.collections@, name) < mid.collections@.len(),
        worn_list(mid.collections@[coll_at(mid.collections@, name)].view.immutables@, list),
        rebuilt(mid, after, name, list, kernel),
    ensures
        tends_to(mid, after, name),
{
    let c = coll_at(mid.collections@, name);
    let segs = mid.collections@[c].view.immutables@;
    let steps = choose|steps: Seq<Step>| #[trigger]
        rebuilds(mid, after, name, list, kernel, steps);
    let k = list.len() as int;
    lemma_coll_from(mid.collections@, name, 0);
    assert(list.take(k) =~= list);
    lemma_tended_all(mid, after, name, list, k, c, kernel, steps);
    let b = if k == 0 {
        segs.len() as int
    } else {
        list[k - 1] as int
    };
    let n = mid.collections@[c].view.immutables.len();
    assert(n == segs.len());
    assert forall|x: int| 0 <= x < b implies !(#[trigger] segs[x]).worn() by {
        if segs[x].worn() {
            let u = x as usize;
            assert(segs[u as int].worn());
            assert(list.contains(u));
            let j = choose|j: int| 0 <= j < list.len() && list[j] == u;
            if j < k - 1 {
                assert(list[j] > list[k - 1]);
            }
        }
    }
    let now = after.collections@[c].view.immutables@;
    lemma_tended_down(segs, now, b, 0);
    assert(segs.skip(0) =~= segs && now.skip(0) =~= now);
    lemma_coll_from(after.collections@, name, 0);
    let y = coll_at(after.collections@, name);
    if y < c {
        assert(after.collections@[y] == mid.collections@[y]);
    } else if y > c {
        assert(after.collections@[c].name@ != name);
    }
}

/// Whether a collection has one more segment, of that number, that is made of what it had in
/// memory, with the index that is configured.
pub open spec fn one_more<N, S>(
    c: Collection,
    d: Collection,
    number: u64,
    kernel: Kernel<N, S>,
) -> bool where N: Fn(&[u32]) -> u32, S: Fn(Metric, &[u32], u32, &[u32], u32) -> u32 {
    &&& d.view.immutables@.len() == c.view.immutables@.len() + 1
    &&& d.view.immutables@.drop_last() == c.view.immutables@
    &&& made(d.view.immutables@.last(), c.config, number, c.view.mutable, kernel)
}

/// A flush gives every collection with rows in memory one more segment, with the next numbers in
/// the order of the names, and leaves the other collections as they are. Where only one has rows
/// in memory, its segment has the next number.
pub proof fn law_flush_gives_next_numbers<N, S>(
    before: Database,
    after: Database,
    next_lsn: u64,
    kernel: Kernel<N, S>,
) where N: Fn(&[u32]) -> u32, S: Fn(Metric, &[u32], u32, &[u32], u32) -> u32
    requires
        flushed_as(before, after, next_lsn, kernel),
        before.collections@.len() <= usize::MAX,
    ensures
        after.collections@.len() == before.collections@.len(),
        exists|at: Seq<usize>| #[trigger]
            before.flushes(at) && after.next_seg_id == before.next_seg_id + at.len() && (forall|
                j: int,
            |
                0 <= j < at.len() ==> one_more(
                    before.collections@[(#[trigger] at[j]) as int],
                    after.collections@[at[j] as int],
                    (before.next_seg_id + j) as u64,
                    kernel,
                )),
        forall|i: int|
            0 <= i < before.collections@.len() && (
            #[trigger] before.collections@[i]).view.mutable.rows().len() == 0
                ==> after.collections@[i] == before.collections@[i],
        forall|i: int|
            #![trigger before.collections@[i]]
            0 <= i < before.collections@.len() && before.collections@[i].view.mutable.rows().len()
                > 0 && (forall|k: int|
                0 <= k < before.collections@.len() && k != i ==> (
                #[trigger] before.collections@[k]).view.mutable.rows().len() == 0) ==> one_more(
                before.collections@[i],
                after.collections@[i],
                before.next_seg_id,
                kernel,
            ) && after.next_seg_id == before.next_seg_id + 1,
        forall|i: int|
            0 <= i < before.collections@.len() && (
            #[trigger] before.collections@[i]).view.mutable.rows().len() > 0 ==> exists|number: u64|
                before.next_seg_id <= number < after.next_seg_id && #[trigger] one_more(
                    before.collections@[i],
                    after.collections@[i],
                    number,
                    kernel,
                ),
        forall|i: int|
            0 <= i < after.collections@.len() ==> (
            #[trigger] after.collections@[i]).view.mutable.rows().len() == 0,
{
    let (plan, mid) = choose|plan: FlushPlan, mid: Database| #[trigger]
        before.flush_planned(plan, next_lsn, kernel) && before.only_numbers(mid)
            && mid.next_seg_id == before.next_seg_id + plan.at@.len()
            && #[trigger] mid.flush_committed(after, plan);
    let at = plan.at@;
    let colls = before.collections@;
    let order = choose|order: Seq<usize>| #[trigger]
        by_name(colls, order) && order.len() == colls.len() && at == unflushed(
            colls,
            order,
            order.len(),
        );
    let n = at.len();
    lemma_unflushed(colls, order, order.len());
    assert forall|j: int| 0 <= j < n implies one_more(
        colls[(#[trigger] at[j]) as int],
        after.collections@[at[j] as int],
        (before.next_seg_id + j) as u64,
        kernel,
    ) by {
        lemma_stores_made(
            colls,
            at,
            before.next_seg_id,
            plan.segs@,
            plan.steps@.take(plan.steps@.len() - 2),
            kernel,
            n,
            j,
        );
        let seg = plan.segs@[j];
        let a = colls[at[j] as int].view.immutables@;
        assert(after.collections@[at[j] as int].view.immutables@ == a.push(seg));
        assert(a.push(seg).drop_last() =~= a);
    }
    assert(before.flushes(at));
    assert forall|i: int|
        0 <= i < colls.len() && (
        #[trigger] colls[i]).view.mutable.rows().len() == 0 implies after.collections@[i]
        == colls[i] by {
        let x = i as usize;
        if at.contains(x) {
            let j = choose|j: int| 0 <= j < n && at[j] == x;
            assert(colls[at[j] as int].view.mutable.rows().len() > 0);
        }
        assert(after.collections@[x as int] == mid.collections@[x as int]);
    }
    assert forall|i: int|
        0 <= i < colls.len() && (
        #[trigger] colls[i]).view.mutable.rows().len() > 0 implies exists|number: u64|
        before.next_seg_id <= number < after.next_seg_id && #[trigger] one_more(
            colls[i],
            after.collections@[i],
            number,
            kernel,
        ) && after.collections@[i].view.mutable.rows().len() == 0 by {
        let x = i as usize;
        assert(order.contains(x));
        let k = choose|k: int| 0 <= k < order.len() && order[k] == x;
        assert(at.contains(order[k]));
        let j = choose|j: int| 0 <= j < n && at[j] == x;
        assert(one_more(
            colls[at[j] as int],
            after.collections@[at[j] as int],
            (before.next_seg_id + j) as u64,
            kernel,
        ));
        assert(flushed_to(
            mid.collections@[at[j] as int],
            after.collections@[at[j] as int],
            plan.segs@[j],
        ));
        let now = after.collections@[i].view.mutable;
        assert(now.rows() == now.table().rows);
    }
    assert forall|i: int|
        0 <= i < after.collections@.len() implies (
    #[trigger] after.collections@[i]).view.mutable.rows().len() == 0 by {
        if colls[i].view.mutable.rows().len() == 0 {
            assert(after.collections@[i] == colls[i]);
        }
    }
    assert forall|i: int|
        #![trigger colls[i]]
        0 <= i < colls.len() && colls[i].view.mutable.rows().len() > 0 && (forall|k: int|
            0 <= k < colls.len() && k != i ==> (
            #[trigger] colls[k]).view.mutable.rows().len() == 0) implies one_more(
        colls[i],
        after.collections@[i],
        before.next_seg_id,
        kernel,
    ) && after.next_seg_id == before.next_seg_id + 1 by {
        let x = i as usize;
        assert(order.contains(x));
        let k = choose|k: int| 0 <= k < order.len() && order[k] == x;
        assert(at.contains(order[k]));
        assert forall|j: int| 0 <= j < n implies #[trigger] at[j] == x by {
            assert(colls[at[j] as int].view.mutable.rows().len() > 0);
        }
        if n > 1 {
            assert(text_before(colls[at[0] as int].name@, colls[at[1] as int].name@));
            assert(at[0] == x && at[1] == x);
            let b = encode_utf8(colls[i].name@);
            lemma_bytes_total(b, b);
        }
        assert(n == 1 && at[0] == x);
    }
}

/// A segment is worth rebuilding exactly if more than 30 of 100 of its rows are deleted.
pub proof fn law_worn_segments(seg: ImmutableSegment)
    ensures
        seg.worn() <==> 100 * seg.dead().len() > 30 * seg.rows().len(),
{
}

/// Compacting leaves at most one segment, without deleted rows and without payloads that were laid
/// over others, and no rows in memory; and the other collections are as they were.
pub proof fn law_compacting_leaves_one_segment<N, S>(
    before: Database,
    after: Database,
    name: Seq<char>,
    kernel: Kernel<N, S>,
) where N: Fn(&[u32]) -> u32, S: Fn(Metric, &[u32], u32, &[u32], u32) -> u32
    requires
        compacted_as(before, after, name, kernel),
    ensures
        ({
            let c = coll_at(before.collections@, name);
            let view = after.collections@[c].view;
            &&& 0 <= c < before.collections@.len()
            &&& after.collections@.len() == before.collections@.len()
            &&& view.immutables@.len() <= 1
            &&& view.mutable.rows().len() == 0
            &&& view.immutables@.len() == 1 ==> view.immutables@[0].dead() == Set::<u32>::empty()
                && view.immutables@[0].over() == Map::<IdView, Option<JsonView>>::empty()
                && view.immutables@[0].number() == before.next_seg_id
            &&& forall|i: int|
                0 <= i < before.collections@.len() && i != c ==> #[trigger] after.collections@[i]
                    == before.collections@[i]
        }),
{
    let (plan, m, mid) = choose|plan: RenewPlan, m: MutableSegment, mid: Database|
        #![trigger before.compact_planned(name, plan, kernel, m), mid.compact_committed(after, plan)]
        before.compact_planned(name, plan, kernel, m) && before.took(mid, plan.seg)
            && mid.compact_committed(after, plan);
    let c = coll_at(before.collections@, name);
    lemma_coll_from(before.collections@, name, 0);
    lemma_no_dead(renormed(before.collections@[c].view.chronicle(), kernel));
    assert(m.dead() == m.table().dead);
    let now = after.collections@[c].view;
    assert(now.mutable.rows() == now.mutable.table().rows);
}

} // verus!
