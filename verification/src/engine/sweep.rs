//! That no directory of a segment is left that the manifest does not have.

use vstd::prelude::*;

use crate::engine::apply::{all_marks, all_overlays, places, stores_marks, stores_overlay, Applied};
use crate::engine::database::{coll_at, lemma_coll_from, Collection, Database, Step};
use crate::engine::disk::Disk;
use crate::engine::durable::{durable, is_stored};
use crate::engine::fresh::lemma_renew_fresh;
use crate::engine::job::{Job, Stage};
use crate::engine::outcome::subject;
use crate::engine::plan::{
    lemma_names_stay, stores_segment, stores_segments, with_segment, with_segments, FlushPlan,
};
use crate::engine::renew::{all_but, exchanged, first_from, numbers, removes, RenewPlan};
use crate::engine::room::{standing, standing_after};
use crate::engine::size::{enlisted, lemma_flushes};
use crate::kernel::{Kernel, Metric};
use crate::manifest::{
    entries_without, entry_at, lemma_entry_from, names_differ, references, EntryView, ManifestView,
};
use crate::segment::immutable::ImmutableSegment;
use crate::segment::mutable::MutableSegment;
use crate::storage::DirSet;
use crate::wal::Op;

verus! {

/// The numbers of the segments that a manifest has.
pub open spec fn listed(m: ManifestView) -> Set<u64> {
    Set::new(|id: u64| references(m.entries, id))
}

/// The numbers of the segments that have a directory once some steps were performed.
pub open spec fn standing_all(ids: Set<u64>, steps: Seq<Step>) -> Set<u64>
    decreases steps.len(),
{
    if steps.len() == 0 {
        ids
    } else {
        standing_all(standing_after(ids, steps[0]), steps.drop_first())
    }
}

/// Whether no segment has a directory that a manifest does not have, once some steps were
/// performed.
pub open spec fn sweeps(ids: Set<u64>, steps: Seq<Step>, m: ManifestView) -> bool {
    standing_all(ids, steps).subset_of(listed(m))
}

/// The manifest once the stage of a job was closed.
pub open spec fn goal(db: Database, job: Job) -> ManifestView {
    match job.stage {
        Stage::Rebuild(_, plan) => plan.manifest@,
        Stage::Compact(plan) => plan.manifest@,
        Stage::Flush(plan) => plan.manifest@,
        _ => db.manifest@,
    }
}

/// Whether a job leaves no directory of a segment that the manifest does not have, given those
/// that have one.
pub open spec fn clears(ids: Set<u64>, db: Database, job: Job) -> bool {
    sweeps(ids, job.steps().skip(job.at as int), goal(db, job))
}

/// Whether no segment has a directory that a manifest does not have.
pub open spec fn swept(dirs: DirSet, root: Seq<Seq<char>>, m: ManifestView) -> bool {
    standing(dirs, root).subset_of(listed(m))
}

/// Whether the segments of a manifest, and no others, have a directory.
pub open spec fn matched(dirs: DirSet, root: Seq<Seq<char>>, m: ManifestView) -> bool {
    standing(dirs, root) == listed(m)
}

/// A job that is done has nothing to clear.
pub proof fn lemma_clears_done(ids: Set<u64>, db: Database, job: Job)
    requires
        job.stage is Done,
        job.at == 0,
    ensures
        clears(ids, db, job) == ids.subset_of(listed(db.manifest@)),
{
    assert(job.steps().skip(0) =~= Seq::<Step>::empty());
}

/// A job that goes on to its next stage leaves no directory that the manifest does not have.
pub proof fn lemma_lead_clears<N, S>(
    mid: Database,
    first: Job,
    db: Database,
    job: Job,
    next_lsn: u64,
    kernel: Kernel<N, S>,
    ids: Set<u64>,
) where N: Fn(&[u32]) -> u32, S: Fn(Metric, &[u32], u32, &[u32], u32) -> u32
    requires
        first.leads(mid, db, job, next_lsn, kernel),
        enlisted(mid),
        mid.next_seg_id + mid.collections@.len() <= u64::MAX,
        ids.subset_of(listed(mid.manifest@)),
    ensures
        clears(ids, db, job),
{
    assert(job.steps().skip(0) =~= job.steps());
    match job.stage {
        Stage::Rebuild(si, plan) => {
            let m = choose|m: MutableSegment| #[trigger]
                mid.rebuild_planned(first.name@, si, plan, kernel, m);
            lemma_rebuild_sweeps(mid, first.name@, si, plan, kernel, m, ids);
        },
        Stage::Flush(plan) => {
            lemma_flush_sweeps(mid, plan, next_lsn, kernel, ids);
        },
        _ => {},
    }
}

/// A job whose last step of a stage was performed has cleared what the stage was to clear.
pub proof fn lemma_clears_closed(ids: Set<u64>, before: Database, first: Job, mid: Database)
    requires
        first.at + 1 == first.steps().len(),
        first.closes(before, mid),
        clears(ids, before, first),
    ensures
        standing_after(ids, first.steps()[first.at as int]).subset_of(listed(mid.manifest@)),
{
    let steps = first.steps();
    lemma_clears_step(ids, steps, first.at as int);
    assert(steps.skip(first.at + 1) =~= Seq::<Step>::empty());
}

/// One step less is left once it was performed.
pub proof fn lemma_clears_step(ids: Set<u64>, steps: Seq<Step>, at: int)
    requires
        0 <= at < steps.len(),
    ensures
        standing_all(ids, steps.skip(at)) == standing_all(
            standing_after(ids, steps[at]),
            steps.skip(at + 1),
        ),
{
    assert(steps.skip(at)[0] == steps[at]);
    assert(steps.skip(at).drop_first() =~= steps.skip(at + 1));
}

/// Whether a step writes the segment of a number.
pub open spec fn writes_id(step: Step, id: u64) -> bool {
    step matches Step::WriteSegment(parts) && parts.meta.seg_id == id
}

/// Whether one of some steps removes the directory of a segment.
pub open spec fn takes_away(steps: Seq<Step>, id: u64) -> bool {
    exists|i: int| 0 <= i < steps.len() && #[trigger] steps[i] == Step::RemoveSegment(id)
}

/// A segment that has a directory in the end was written, or had one that no step removes.
proof fn lemma_standing_why(ids: Set<u64>, steps: Seq<Step>, id: u64)
    requires
        standing_all(ids, steps).contains(id),
    ensures
        (exists|i: int| 0 <= i < steps.len() && writes_id(#[trigger] steps[i], id)) || (ids.contains(
            id,
        ) && !takes_away(steps, id)),
    decreases steps.len(),
{
    if steps.len() > 0 {
        let rest = steps.drop_first();
        let now = standing_after(ids, steps[0]);
        lemma_standing_why(now, rest, id);
        if exists|i: int| 0 <= i < rest.len() && writes_id(#[trigger] rest[i], id) {
            let i = choose|i: int| 0 <= i < rest.len() && writes_id(#[trigger] rest[i], id);
            assert(writes_id(steps[i + 1], id));
        } else if !writes_id(steps[0], id) {
            assert(ids.contains(id));
            if takes_away(steps, id) {
                let i = choose|i: int|
                    0 <= i < steps.len() && #[trigger] steps[i] == Step::RemoveSegment(id);
                if i > 0 {
                    assert(rest[i - 1] == Step::RemoveSegment(id));
                }
            }
        } else {
            assert(writes_id(steps[0], id));
        }
    }
}

/// Steps leave no directory that the manifest does not have, where it has every segment that
/// they write, and every one that it had before and that they do not remove.
pub proof fn lemma_sweeps(ids: Set<u64>, steps: Seq<Step>, before: ManifestView, after: ManifestView)
    requires
        ids.subset_of(listed(before)),
        forall|i: int, id: u64|
            0 <= i < steps.len() && writes_id(#[trigger] steps[i], id) ==> #[trigger] references(
                after.entries,
                id,
            ),
        forall|id: u64| #[trigger]
            references(before.entries, id) && !takes_away(steps, id) ==> references(
                after.entries,
                id,
            ),
    ensures
        sweeps(ids, steps, after),
{
    assert forall|id: u64| #[trigger] standing_all(ids, steps).contains(id) implies listed(
        after,
    ).contains(id) by {
        lemma_standing_why(ids, steps, id);
        if exists|i: int| 0 <= i < steps.len() && writes_id(#[trigger] steps[i], id) {
            let i = choose|i: int| 0 <= i < steps.len() && writes_id(#[trigger] steps[i], id);
            assert(writes_id(steps[i], id));
            assert(references(after.entries, id));
        } else {
            assert(listed(before).contains(id));
        }
    }
}

/// Where fewer segments have a directory before, no more have one in the end.
pub proof fn lemma_standing_fewer(a: Set<u64>, b: Set<u64>, steps: Seq<Step>)
    requires
        a.subset_of(b),
    ensures
        standing_all(a, steps).subset_of(standing_all(b, steps)),
    decreases steps.len(),
{
    if steps.len() > 0 {
        lemma_standing_fewer(
            standing_after(a, steps[0]),
            standing_after(b, steps[0]),
            steps.drop_first(),
        );
    }
}

/// Steps that sweep one after the other sweep together.
pub proof fn lemma_sweeps_on(
    ids: Set<u64>,
    a: Seq<Step>,
    mid: ManifestView,
    b: Seq<Step>,
    after: ManifestView,
)
    requires
        sweeps(ids, a, mid),
        sweeps(listed(mid), b, after),
    ensures
        sweeps(ids, a + b, after),
{
    lemma_sweeps_both(ids, a, b);
    lemma_standing_fewer(standing_all(ids, a), listed(mid), b);
}

/// Steps one after the other.
pub proof fn lemma_sweeps_both(
    ids: Set<u64>,
    a: Seq<Step>,
    b: Seq<Step>,
)
    ensures
        standing_all(ids, a + b) == standing_all(standing_all(ids, a), b),
    decreases a.len(),
{
    if a.len() == 0 {
        assert(a + b =~= b);
    } else {
        assert((a + b)[0] == a[0]);
        assert((a + b).drop_first() =~= a.drop_first() + b);
        lemma_sweeps_both(standing_after(ids, a[0]), a.drop_first(), b);
    }
}

/// A number of a list is that of a segment.
proof fn lemma_referenced(entries: Seq<EntryView>, x: int, id: u64)
    requires
        0 <= x < entries.len(),
        entries[x].segments.contains(id),
    ensures
        references(entries, id),
{
}

/// What a list has once a number was exchanged.
proof fn lemma_exchanged(s: Seq<u64>, old_id: u64, new_id: u64, id: u64)
    ensures
        exchanged(s, old_id, new_id).contains(new_id),
        s.contains(id) && id != old_id ==> exchanged(s, old_id, new_id).contains(id),
{
    lemma_first_from(s, old_id, 0);
    let p = first_from(s, old_id, 0);
    let r = exchanged(s, old_id, new_id);
    if p < s.len() {
        assert(r[p] == new_id);
    } else {
        assert(r[s.len() as int] == new_id);
    }
    if s.contains(id) && id != old_id {
        let k = choose|k: int| 0 <= k < s.len() && s[k] == id;
        assert(r[k] == id);
    }
}

proof fn lemma_first_from(s: Seq<u64>, x: u64, i: int)
    requires
        0 <= i <= s.len(),
    ensures
        i <= first_from(s, x, i) <= s.len(),
        first_from(s, x, i) < s.len() ==> s[first_from(s, x, i)] == x,
    decreases s.len() - i,
{
    if i < s.len() && s[i] != x {
        lemma_first_from(s, x, i + 1);
    }
}

/// What a list has once a number was taken away.
proof fn lemma_all_but(s: Seq<u64>, x: u64, id: u64)
    requires
        s.contains(id),
        id != x,
    ensures
        all_but(s, x).contains(id),
    decreases s.len(),
{
    let k = choose|k: int| 0 <= k < s.len() && s[k] == id;
    let rest = all_but(s.drop_last(), x);
    if k == s.len() - 1 {
        assert(all_but(s, x)[rest.len() as int] == id);
    } else {
        assert(s.drop_last()[k] == id);
        lemma_all_but(s.drop_last(), x, id);
        let j = choose|j: int| 0 <= j < rest.len() && rest[j] == id;
        if s.last() != x {
            assert(all_but(s, x)[j] == id);
        }
    }
}

/// Rebuilding a segment leaves no directory that the manifest does not have.
pub proof fn lemma_rebuild_sweeps<N, S>(
    db: Database,
    name: Seq<char>,
    si: usize,
    plan: RenewPlan,
    kernel: Kernel<N, S>,
    m: MutableSegment,
    ids: Set<u64>,
) where N: Fn(&[u32]) -> u32, S: Fn(Metric, &[u32], u32, &[u32], u32) -> u32
    requires
        db.rebuild_planned(name, si, plan, kernel, m),
        ids.subset_of(listed(db.manifest@)),
    ensures
        sweeps(ids, plan.steps@, plan.manifest@),
{
    let seg = db.collections@[plan.at as int].view.immutables@[si as int];
    let gone = seq![seg.number()];
    let steps = plan.steps@;
    let a = db.manifest@.entries;
    let b = plan.manifest@.entries;
    let e = entry_at(a, name);
    let disk: Disk = arbitrary();
    lemma_renew_fresh(disk, steps, plan.seg, db.next_seg_id, m, plan.manifest@, gone);
    lemma_entry_from(a, name, 0);
    assert forall|i: int, id: u64|
        0 <= i < steps.len() && writes_id(#[trigger] steps[i], id) implies #[trigger] references(
        b,
        id,
    ) by {
        lemma_exchanged(a[e].segments, seg.number(), db.next_seg_id, id);
        assert(b[e].segments == exchanged(a[e].segments, seg.number(), db.next_seg_id));
        lemma_referenced(b, e, id);
    }
    assert forall|id: u64| #[trigger] references(a, id) && !takes_away(steps, id) implies references(
        b,
        id,
    ) by {
        let x = choose|x: int| 0 <= x < a.len() && (#[trigger] a[x]).segments.contains(id);
        if x == e {
            let k = steps.len() - gone.len() - 1;
            assert(removes(steps, k + 1 + 0, gone[0]));
            assert(id != seg.number());
            lemma_exchanged(a[e].segments, seg.number(), db.next_seg_id, id);
            lemma_all_but(a[e].segments, seg.number(), id);
            lemma_referenced(b, e, id);
        } else {
            assert(b[x] == a[x]);
            lemma_referenced(b, x, id);
        }
    }
    lemma_sweeps(ids, steps, db.manifest@, plan.manifest@);
}

/// Compacting a collection leaves no directory that the manifest does not have.
pub proof fn lemma_compact_sweeps<N, S>(
    db: Database,
    name: Seq<char>,
    plan: RenewPlan,
    kernel: Kernel<N, S>,
    m: MutableSegment,
    disk: Disk,
    next_lsn: u64,
    ids: Set<u64>,
) where N: Fn(&[u32]) -> u32, S: Fn(Metric, &[u32], u32, &[u32], u32) -> u32
    requires
        db.compact_planned(name, plan, kernel, m),
        durable(db, disk, next_lsn),
        ids.subset_of(listed(db.manifest@)),
    ensures
        sweeps(ids, plan.steps@, plan.manifest@),
{
    let c = db.collections@[plan.at as int];
    let gone = numbers(c.view.immutables@);
    let steps = plan.steps@;
    let a = db.manifest@.entries;
    let b = plan.manifest@.entries;
    let e = entry_at(a, name);
    lemma_renew_fresh(disk, steps, plan.seg, db.next_seg_id, m, plan.manifest@, gone);
    lemma_entry_from(a, name, 0);
    lemma_coll_from(db.collections@, name, 0);
    assert(is_stored(disk, c));
    assert(a[e].segments == gone);
    assert forall|i: int, id: u64|
        0 <= i < steps.len() && writes_id(#[trigger] steps[i], id) implies #[trigger] references(
        b,
        id,
    ) by {
        assert(b[e].segments[0] == id);
        lemma_referenced(b, e, id);
    }
    assert forall|id: u64| #[trigger] references(a, id) && !takes_away(steps, id) implies references(
        b,
        id,
    ) by {
        let x = choose|x: int| 0 <= x < a.len() && (#[trigger] a[x]).segments.contains(id);
        if x == e {
            let j = choose|j: int| 0 <= j < gone.len() && gone[j] == id;
            let k = steps.len() - gone.len() - 1;
            assert(removes(steps, k + 1 + j, gone[j]));
            assert(steps[k + 1 + j] == Step::RemoveSegment(id));
        } else {
            assert(b[x] == a[x]);
            lemma_referenced(b, x, id);
        }
    }
    lemma_sweeps(ids, steps, db.manifest@, plan.manifest@);
}

/// The steps that store segments write those with numbers from the first one on.
proof fn lemma_stored_numbers<N, S>(
    colls: Seq<Collection>,
    at: Seq<usize>,
    first: u64,
    segs: Seq<ImmutableSegment>,
    steps: Seq<Step>,
    kernel: Kernel<N, S>,
    n: nat,
    i: int,
    id: u64,
) where N: Fn(&[u32]) -> u32, S: Fn(Metric, &[u32], u32, &[u32], u32) -> u32
    requires
        stores_segments(colls, at, first, segs, steps, kernel, n),
        first + n <= u64::MAX,
        0 <= i < steps.len(),
        writes_id(steps[i], id),
    ensures
        first <= id < first + n,
    decreases n,
{
    if n > 0 {
        let c = colls[at[n - 1] as int];
        let last = (first + n - 1) as u64;
        let k = choose|k: int|
            0 <= k <= steps.len() && #[trigger] stores_segment(
                steps.skip(k),
                segs[n - 1],
                last,
                c.view.mutable,
            ) && stores_segments(
                colls,
                at,
                first,
                segs,
                steps.take(k),
                kernel,
                (n - 1) as nat,
            );
        if i < k {
            assert(steps.take(k)[i] == steps[i]);
            lemma_stored_numbers(
                colls,
                at,
                first,
                segs,
                steps.take(k),
                kernel,
                (n - 1) as nat,
                i,
                id,
            );
        } else {
            assert(steps.skip(k)[i - k] == steps[i]);
        }
    }
}

/// A manifest that segments were added to has these, and those that it had.
proof fn lemma_added(
    entries: Seq<EntryView>,
    colls: Seq<Collection>,
    at: Seq<usize>,
    first: u64,
    n: nat,
)
    requires
        n <= at.len(),
        first + n <= u64::MAX,
        forall|j: int| 0 <= j < at.len() ==> (#[trigger] at[j]) < colls.len(),
        forall|i: int|
            0 <= i < colls.len() ==> entry_at(entries, (#[trigger] colls[i]).name@) < entries.len(),
    ensures
        forall|id: u64|
            first <= id < first + n || references(entries, id) ==> #[trigger] references(
                with_segments(entries, colls, at, first, n),
                id,
            ),
    decreases n,
{
    if n > 0 {
        lemma_added(entries, colls, at, first, (n - 1) as nat);
        lemma_names_stay(entries, colls, at, first, (n - 1) as nat);
        let mid = with_segments(entries, colls, at, first, (n - 1) as nat);
        let name = colls[at[n - 1] as int].name@;
        let last = (first + n - 1) as u64;
        let all = with_segments(entries, colls, at, first, n);
        assert(at[n - 1] < colls.len());
        assert(entry_at(entries, name) < entries.len());
        lemma_entry_from(entries, name, 0);
        lemma_entry_from(mid, name, 0);
        let e = entry_at(mid, name);
        assert(mid.len() == entries.len());
        assert(mid[entry_at(entries, name)].name == name);
        assert(e < mid.len());
        assert(all == with_segment(mid, name, last));
        assert forall|id: u64|
            first <= id < first + n || references(
                entries,
                id,
            ) implies #[trigger] references(all, id) by {
            if id == last {
                assert(all[e].segments[mid[e].segments.len() as int] == id);
                lemma_referenced(all, e, id);
            } else {
                assert(references(mid, id));
                let x = choose|x: int| 0 <= x < mid.len() && (#[trigger] mid[x]).segments.contains(
                    id,
                );
                if x == e {
                    let k = choose|k: int| 0 <= k < mid[e].segments.len() && mid[e].segments[k]
                        == id;
                    assert(all[e].segments[k] == id);
                    lemma_referenced(all, e, id);
                } else {
                    assert(all[x] == mid[x]);
                    lemma_referenced(all, x, id);
                }
            }
        }
    }
}

/// Flushing leaves no directory that the manifest does not have.
pub proof fn lemma_flush_sweeps<N, S>(
    db: Database,
    plan: FlushPlan,
    next_lsn: u64,
    kernel: Kernel<N, S>,
    ids: Set<u64>,
) where N: Fn(&[u32]) -> u32, S: Fn(Metric, &[u32], u32, &[u32], u32) -> u32
    requires
        db.flush_planned(plan, next_lsn, kernel),
        enlisted(db),
        db.next_seg_id + db.collections@.len() <= u64::MAX,
        ids.subset_of(listed(db.manifest@)),
    ensures
        sweeps(ids, plan.steps@, plan.manifest@),
{
    let steps = plan.steps@;
    let head = steps.take(steps.len() - 2);
    let first = db.next_seg_id;
    let n = plan.at@.len();
    lemma_flushes(db, plan.at@);
    lemma_added(db.manifest@.entries, db.collections@, plan.at@, first, n);
    assert forall|i: int, id: u64|
        0 <= i < steps.len() && writes_id(#[trigger] steps[i], id) implies #[trigger] references(
        plan.manifest@.entries,
        id,
    ) by {
        assert(i < steps.len() - 2);
        assert(head[i] == steps[i]);
        lemma_stored_numbers(
            db.collections@,
            plan.at@,
            first,
            plan.segs@,
            head,
            kernel,
            n,
            i,
            id,
        );
    }
    lemma_sweeps(ids, steps, db.manifest@, plan.manifest@);
}

/// Entries without those of a name have the segments of the others.
proof fn lemma_without(entries: Seq<EntryView>, name: Seq<char>, x: int, id: u64)
    requires
        0 <= x < entries.len(),
        entries[x].name != name,
        entries[x].segments.contains(id),
    ensures
        references(entries_without(entries, name), id),
    decreases entries.len(),
{
    let rest = entries_without(entries.drop_last(), name);
    let all = entries_without(entries, name);
    if x == entries.len() - 1 {
        assert(all[rest.len() as int] == entries[x]);
        lemma_referenced(all, rest.len() as int, id);
    } else {
        assert(entries.drop_last()[x] == entries[x]);
        lemma_without(entries.drop_last(), name, x, id);
        let y = choose|y: int| 0 <= y < rest.len() && (#[trigger] rest[y]).segments.contains(id);
        assert(all[y] == rest[y]);
        lemma_referenced(all, y, id);
    }
}

/// Writing leaves no directory that the manifest does not have.
pub proof fn lemma_write_sweeps<N, S>(
    db: Database,
    after: Database,
    op: Op,
    kernel: Kernel<N, S>,
    a: Applied,
    ids: Set<u64>,
) where N: Fn(&[u32]) -> u32, S: Fn(Metric, &[u32], u32, &[u32], u32) -> u32
    requires
        db.applies(after, op, kernel, a),
        names_differ(db.manifest@.entries),
        ids.subset_of(listed(db.manifest@)),
    ensures
        sweeps(ids, a.steps@, after.manifest@),
{
    let steps = a.steps@;
    let name = subject(op@);
    let at = coll_at(db.collections@, name);
    let before = db.collections@[at];
    let new = after.collections@[at];
    let entries = db.manifest@.entries;
    let now = after.manifest@.entries;
    match op {
        Op::CreateCollection { .. } => {
            assert forall|id: u64| #[trigger] references(entries, id) implies references(
                now,
                id,
            ) by {
                let x = choose|x: int|
                    0 <= x < entries.len() && (#[trigger] entries[x]).segments.contains(id);
                assert(now[x] == entries[x]);
                lemma_referenced(now, x, id);
            }
        },
        Op::DropCollection { .. } => {
            lemma_entry_from(entries, name, 0);
            let e = entry_at(entries, name);
            assert forall|i: int| 0 <= i < steps.len() implies !((
            #[trigger] steps[i]) is WriteSegment) by {}
            assert forall|id: u64| #[trigger]
                references(entries, id) && !takes_away(steps, id) implies references(now, id) by {
                let x = choose|x: int|
                    0 <= x < entries.len() && (#[trigger] entries[x]).segments.contains(id);
                if entries[x].name == name {
                    if x > e {
                        assert(entries[e].name != entries[x].name);
                    }
                    assert(x == e);
                    let j = choose|j: int|
                        0 <= j < entries[e].segments.len() && entries[e].segments[j] == id;
                    assert(steps[j + 1] == Step::RemoveSegment(id));
                } else {
                    lemma_without(entries, name, x, id);
                }
            }
        },
        Op::Upsert { points, .. } => {
            if steps.len() > 0 {
                let touched = choose|touched: Seq<bool>| #[trigger]
                    before.view.upserts(new.view, points@, kernel, touched) && all_marks(
                        new.view.immutables@,
                        places(touched),
                        steps,
                    );
                assert forall|i: int| 0 <= i < steps.len() implies (
                #[trigger] steps[i]) is WriteTombstones by {
                    assert(stores_marks(steps[i], new.view.immutables@[places(touched)[i]]));
                }
            }
        },
        Op::Delete { ids, .. } => {
            let touched = choose|touched: Seq<bool>| #[trigger]
                before.view.deletes(new.view, ids@, touched) && all_marks(
                    new.view.immutables@,
                    places(touched),
                    steps,
                );
            assert forall|i: int| 0 <= i < steps.len() implies (
            #[trigger] steps[i]) is WriteTombstones by {
                assert(stores_marks(steps[i], new.view.immutables@[places(touched)[i]]));
            }
        },
        Op::SetPayload { ids, payload, .. } => {
            let touched = choose|touched: Seq<bool>| #[trigger]
                before.view.pays(new.view, ids@, Some(payload@), touched) && all_overlays(
                    new.view.immutables@,
                    places(touched),
                    steps,
                );
            assert forall|i: int| 0 <= i < steps.len() implies (
            #[trigger] steps[i]) is WriteOverlay by {
                assert(stores_overlay(steps[i], new.view.immutables@[places(touched)[i]]));
            }
        },
        Op::ClearPayload { ids, .. } => {
            let touched = choose|touched: Seq<bool>| #[trigger]
                before.view.pays(new.view, ids@, None, touched) && all_overlays(
                    new.view.immutables@,
                    places(touched),
                    steps,
                );
            assert forall|i: int| 0 <= i < steps.len() implies (
            #[trigger] steps[i]) is WriteOverlay by {
                assert(stores_overlay(steps[i], new.view.immutables@[places(touched)[i]]));
            }
        },
    }
    lemma_sweeps(ids, steps, db.manifest@, after.manifest@);
}

} // verus!
