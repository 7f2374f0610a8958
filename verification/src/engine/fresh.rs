//! That the steps of a job can be taken, one after the other.

use vstd::prelude::*;

use crate::engine::apply::{all_marks, all_overlays, places, stores_marks, stores_overlay, Applied};
use crate::engine::database::{
    coll_at, lemma_coll_from, lemma_kept_none, Collection, Database, Step,
};
use crate::engine::disk::{lemma_performed_parts, Disk};
use crate::engine::durable::{
    durable, has_seg, is_stored, lemma_places, lemma_stacked_equal, lemma_stored_tidy, seg_number,
};
use crate::engine::format::can_take;
use crate::engine::job::reach;
use crate::engine::outcome::{orderly, settled_kept, subject};
use crate::engine::plan::{stores_segment, stores_segments, FlushPlan};
use crate::engine::renew::{numbers, removes, renews};
use crate::kernel::{Kernel, Metric};
use crate::manifest::{entry_at, ManifestView};
use crate::segment::immutable::ImmutableSegment;
use crate::segment::mutable::MutableSegment;
use crate::wal::Op;

verus! {

/// Whether some steps can be taken, one after the other, from place `at` on.
pub open spec fn fresh(base: Disk, steps: Seq<Step>, at: int) -> bool {
    forall|k: int|
        at <= k < steps.len() ==> can_take(#[trigger] reach(base, steps, k), steps[k])
}

/// What is stored, without segments whose numbers are still to come.
pub open spec fn trimmed(disk: Disk, n: u64) -> Disk {
    Disk {
        segs: Map::new(
            |id: u64| disk.segs.contains_key(id) && id < n,
            |id: u64| disk.segs[id],
        ),
        ..disk
    }
}

/// Whether no segment is stored whose number is still to come.
pub open spec fn below(disk: Disk, n: u64) -> bool {
    forall|id: u64| #[trigger] disk.segs.contains_key(id) ==> id < n
}

/// Where no segment is stored whose number is still to come, there is nothing to leave out.
pub proof fn lemma_untrimmed(disk: Disk, n: u64)
    requires
        below(disk, n),
    ensures
        trimmed(disk, n) == disk,
{
    assert(trimmed(disk, n).segs =~= disk.segs);
}

/// What segments are stored depends on nothing else.
pub proof fn lemma_same_segs(a: Disk, b: Disk, steps: Seq<Step>)
    requires
        a.segs == b.segs,
    ensures
        a.performed_all(steps).segs == b.performed_all(steps).segs,
    decreases steps.len(),
{
    if steps.len() > 0 {
        lemma_same_segs(a, b, steps.drop_last());
    }
}

/// Whether steps can be taken depends on the segments alone.
pub proof fn lemma_same_fresh(a: Disk, b: Disk, steps: Seq<Step>)
    requires
        a.segs == b.segs,
    ensures
        fresh(a, steps, 0) == fresh(b, steps, 0),
        a.performed_all(steps).segs == b.performed_all(steps).segs,
{
    lemma_same_segs(a, b, steps);
    assert forall|k: int| 0 <= k < steps.len() implies #[trigger] reach(a, steps, k).segs == reach(
        b,
        steps,
        k,
    ).segs by {
        lemma_same_segs(a, b, steps.take(k));
    }
    assert forall|k: int| 0 <= k < steps.len() implies can_take(
        #[trigger] reach(a, steps, k),
        steps[k],
    ) == can_take(reach(b, steps, k), steps[k]) by {
        assert(reach(a, steps, k).segs == reach(b, steps, k).segs);
    }
    if fresh(a, steps, 0) {
        assert forall|k: int| 0 <= k < steps.len() implies can_take(
            #[trigger] reach(b, steps, k),
            steps[k],
        ) by {
            assert(can_take(reach(a, steps, k), steps[k]));
        }
    }
    if fresh(b, steps, 0) {
        assert forall|k: int| 0 <= k < steps.len() implies can_take(
            #[trigger] reach(a, steps, k),
            steps[k],
        ) by {
            assert(can_take(reach(b, steps, k), steps[k]));
        }
    }
}

/// Steps that can be taken one after the other can be taken together.
pub proof fn lemma_fresh_both(base: Disk, a: Seq<Step>, b: Seq<Step>)
    requires
        fresh(base, a, 0),
        fresh(base.performed_all(a), b, 0),
    ensures
        fresh(base, a + b, 0),
{
    let all = a + b;
    let n = a.len() as int;
    assert forall|k: int| 0 <= k < all.len() implies can_take(
        #[trigger] reach(base, all, k),
        all[k],
    ) by {
        if k < n {
            assert(all.take(k) =~= a.take(k));
            assert(can_take(reach(base, a, k), a[k]));
        } else {
            let head = all.take(k);
            lemma_performed_parts(base, head, n);
            assert(head.take(n) =~= a);
            assert(head.skip(n) =~= b.take(k - n));
            assert(can_take(reach(base.performed_all(a), b, k - n), b[k - n]));
        }
    }
}

/// Steps that can be taken write only segments with numbers that were taken.
pub proof fn lemma_below(base: Disk, steps: Seq<Step>, n: u64)
    requires
        fresh(base, steps, 0),
        below(base, n),
        forall|i: int|
            0 <= i < steps.len() ==> ((#[trigger] steps[i]) matches Step::WriteSegment(parts)
                ==> parts.meta.seg_id < n),
    ensures
        below(base.performed_all(steps), n),
    decreases steps.len(),
{
    if steps.len() > 0 {
        let rest = steps.drop_last();
        let last = steps.len() - 1;
        assert forall|k: int| 0 <= k < rest.len() implies can_take(
            #[trigger] reach(base, rest, k),
            rest[k],
        ) by {
            assert(rest.take(k) =~= steps.take(k));
            assert(can_take(reach(base, steps, k), steps[k]));
        }
        assert forall|i: int| 0 <= i < rest.len() implies ((
        #[trigger] rest[i]) matches Step::WriteSegment(parts) ==> parts.meta.seg_id < n) by {
            assert(rest[i] == steps[i]);
        }
        lemma_below(base, rest, n);
        assert(steps.take(last) =~= rest);
        assert(can_take(reach(base, steps, last), steps[last]));
    }
}

/// Segments whose numbers are still to come make no difference.
pub proof fn lemma_trimmed(db: Database, disk: Disk, next_lsn: u64)
    requires
        durable(db, disk, next_lsn),
    ensures
        durable(db, trimmed(disk, db.next_seg_id), next_lsn),
{
    let less = trimmed(disk, db.next_seg_id);
    assert forall|i: int| 0 <= i < db.collections@.len() implies is_stored(
        less,
        #[trigger] db.collections@[i],
    ) by {
        let c = db.collections@[i];
        assert(is_stored(disk, c));
        assert forall|j: int| 0 <= j < c.view.immutables@.len() implies less.segs.contains_key(
            (#[trigger] c.view.immutables@[j]).number(),
        ) && less.segs[c.view.immutables@[j].number()] == disk.segs[c.view.immutables@[j].number()]
        by {
            assert(has_seg(db, i, j));
            assert(seg_number(db, i, j) < db.next_seg_id);
        }
    }
    assert forall|name: Seq<char>| #[trigger] less.base(name) == disk.base(name) by {
        let at = entry_at(disk.manifest.entries, name);
        if at < disk.manifest.entries.len() {
            assert(db.kept(name) is Some);
            lemma_coll_from(db.collections@, name, 0);
            lemma_kept_none(db.collections@, name);
            let i = coll_at(db.collections@, name);
            let c = db.collections@[i];
            assert(is_stored(disk, c));
            let ids = numbers(c.view.immutables@);
            assert forall|j: int| 0 <= j < ids.len() implies less.segs[#[trigger] ids[j]]
                == disk.segs[ids[j]] by {
                assert(has_seg(db, i, j));
                assert(seg_number(db, i, j) == ids[j]);
            }
            lemma_stacked_equal(less.segs, disk.segs, ids);
        }
    }
    assert forall|name: Seq<char>| #[trigger]
        orderly(less.base(name), less.log, less.manifest.last_flushed_lsn, name) by {
        assert(orderly(disk.base(name), disk.log, disk.manifest.last_flushed_lsn, name));
    }
    assert forall|name: Seq<char>| #[trigger]
        settled_kept(less.recovered(name)) == settled_kept(db.kept(name)) by {
        assert(less.base(name) == disk.base(name));
        assert(settled_kept(disk.recovered(name)) == settled_kept(db.kept(name)));
    }
    assert forall|name: Seq<char>| #[trigger]
        db.kept(name) is Some <==> entry_at(less.manifest.entries, name)
            < less.manifest.entries.len() by {
        assert(db.kept(name) is Some <==> entry_at(disk.manifest.entries, name)
            < disk.manifest.entries.len());
    }
    lemma_stored_tidy(db, less);
}

/// Whether a step writes the segment of a number.
spec fn writes_segment(step: Step, id: u64) -> bool {
    step matches Step::WriteSegment(parts) && parts.meta.seg_id == id
}

/// Whether a step makes no change to a segment that must be there already.
spec fn only_new(step: Step) -> bool {
    !(step is WriteTombstones) && !(step is WriteOverlay)
}

/// A segment that is there was there, or was written.
proof fn lemma_grown(disk: Disk, steps: Seq<Step>, id: u64)
    requires
        forall|i: int| 0 <= i < steps.len() ==> only_new(#[trigger] steps[i]),
        disk.performed_all(steps).segs.contains_key(id),
    ensures
        disk.segs.contains_key(id) || exists|i: int|
            0 <= i < steps.len() && writes_segment(#[trigger] steps[i], id),
    decreases steps.len(),
{
    if steps.len() > 0 {
        let rest = steps.drop_last();
        let last = steps.len() - 1;
        assert(only_new(steps[last]));
        if !writes_segment(steps[last], id) {
            assert(disk.performed_all(rest).segs.contains_key(id));
            assert forall|i: int| 0 <= i < rest.len() implies only_new(#[trigger] rest[i]) by {
                assert(only_new(steps[i]));
            }
            lemma_grown(disk, rest, id);
            if !disk.segs.contains_key(id) {
                let i = choose|i: int|
                    0 <= i < rest.len() && writes_segment(#[trigger] rest[i], id);
                assert(writes_segment(steps[i], id));
            }
        }
    }
}

/// Whether steps write no segment twice, and none whose number is below a first one.
spec fn climbs(steps: Seq<Step>, first: int, last: int) -> bool {
    &&& forall|i: int| 0 <= i < steps.len() ==> only_new(#[trigger] steps[i])
    &&& forall|i: int, id: u64|
        0 <= i < steps.len() && #[trigger] writes_segment(steps[i], id) ==> first <= id < last
    &&& forall|i: int, j: int, id: u64|
        0 <= i < j < steps.len() && #[trigger] writes_segment(steps[i], id)
            ==> !#[trigger] writes_segment(steps[j], id)
    &&& forall|i: int|
        0 <= i < steps.len() ==> ((#[trigger] steps[i]) matches Step::WriteIndex(id, _) ==> i > 0
            && writes_segment(steps[i - 1], id))
}

/// Steps that write each segment once can be taken.
proof fn lemma_climbs(disk: Disk, steps: Seq<Step>, first: int, last: int)
    requires
        climbs(steps, first, last),
        forall|id: u64| #[trigger] disk.segs.contains_key(id) ==> id < first,
    ensures
        fresh(disk, steps, 0),
{
    assert forall|k: int| 0 <= k < steps.len() implies can_take(
        #[trigger] reach(disk, steps, k),
        steps[k],
    ) by {
        let head = steps.take(k);
        assert(only_new(steps[k]));
        if let Step::WriteSegment(parts) = steps[k] {
            let id = parts.meta.seg_id;
            assert(writes_segment(steps[k], id));
            if disk.performed_all(head).segs.contains_key(id) {
                assert forall|i: int| 0 <= i < head.len() implies only_new(#[trigger] head[i]) by {
                    assert(only_new(steps[i]));
                }
                lemma_grown(disk, head, id);
                let i = choose|i: int|
                    0 <= i < head.len() && writes_segment(#[trigger] head[i], id);
                assert(writes_segment(steps[i], id));
            }
        }
        if let Step::WriteIndex(id, _) = steps[k] {
            assert(writes_segment(steps[k - 1], id));
            assert(head.drop_last() =~= steps.take(k - 1));
            assert(head.last() == steps[k - 1]);
        }
    }
}

/// The steps of a new segment write it once.
proof fn lemma_stores_climbs(
    steps: Seq<Step>,
    seg: ImmutableSegment,
    seg_id: u64,
    m: MutableSegment,
)
    requires
        stores_segment(steps, seg, seg_id, m),
    ensures
        climbs(steps, seg_id as int, seg_id + 1),
{
    assert forall|i: int| 0 <= i < steps.len() implies only_new(#[trigger] steps[i]) by {
        if i == 1 {
            assert(steps[1] is WriteIndex);
        }
    }
    assert(writes_segment(steps[0], seg_id));
    assert forall|i: int, id: u64|
        0 <= i < steps.len() && #[trigger] writes_segment(steps[i], id) implies i == 0 && id
        == seg_id by {
        if i == 1 {
            assert(steps[1] is WriteIndex);
        }
    }
}

/// The steps of several new segments write each once.
proof fn lemma_all_climb<N, S>(
    colls: Seq<Collection>,
    at: Seq<usize>,
    first: u64,
    segs: Seq<ImmutableSegment>,
    steps: Seq<Step>,
    kernel: Kernel<N, S>,
    n: nat,
) where N: Fn(&[u32]) -> u32, S: Fn(Metric, &[u32], u32, &[u32], u32) -> u32
    requires
        stores_segments(colls, at, first, segs, steps, kernel, n),
        first + n <= u64::MAX,
    ensures
        climbs(steps, first as int, first + n),
    decreases n,
{
    if n > 0 {
        let c = colls[at[n - 1] as int];
        let id = (first + n - 1) as u64;
        let k = choose|k: int|
            0 <= k <= steps.len() && #[trigger] stores_segment(
                steps.skip(k),
                segs[n - 1],
                id,
                c.view.mutable,
            ) && stores_segments(
                colls,
                at,
                first,
                segs,
                steps.take(k),
                kernel,
                (n - 1) as nat,
            );
        let a = steps.take(k);
        let b = steps.skip(k);
        lemma_all_climb(colls, at, first, segs, a, kernel, (n - 1) as nat);
        lemma_stores_climbs(b, segs[n - 1], id, c.view.mutable);
        lemma_join_climbs(a, b, first as int, id as int, id + 1);
        assert(a + b =~= steps);
    }
}

/// Steps that write each segment once, followed by others of higher numbers.
proof fn lemma_join_climbs(a: Seq<Step>, b: Seq<Step>, first: int, mid: int, last: int)
    requires
        climbs(a, first, mid),
        climbs(b, mid, last),
        first <= mid <= last,
    ensures
        climbs(a + b, first, last),
{
    let all = a + b;
    let n = a.len() as int;
    assert forall|i: int| 0 <= i < all.len() implies only_new(#[trigger] all[i]) by {
        if i < n {
            assert(only_new(a[i]));
        } else {
            assert(only_new(b[i - n]));
        }
    }
    assert forall|i: int, id: u64|
        0 <= i < all.len() && #[trigger] writes_segment(all[i], id) implies (if i < n {
        first <= id < mid
    } else {
        mid <= id < last
    }) by {
        if i < n {
            assert(writes_segment(a[i], id));
        } else {
            assert(writes_segment(b[i - n], id));
        }
    }
    assert forall|i: int, j: int, id: u64|
        0 <= i < j < all.len() && #[trigger] writes_segment(all[i], id) implies !(
    #[trigger] writes_segment(all[j], id)) by {
        if writes_segment(all[j], id) {
            if j < n {
                assert(writes_segment(a[i], id) && writes_segment(a[j], id));
            } else if i >= n {
                assert(writes_segment(b[i - n], id) && writes_segment(b[j - n], id));
            }
        }
    }
    assert forall|i: int| 0 <= i < all.len() implies ((
    #[trigger] all[i]) matches Step::WriteIndex(id, _) ==> i > 0 && writes_segment(
        all[i - 1],
        id,
    )) by {
        if i < n {
            assert(all[i] == a[i]);
            if i > 0 {
                assert(all[i - 1] == a[i - 1]);
            }
        } else {
            assert(all[i] == b[i - n]);
            if i > n {
                assert(all[i - 1] == b[i - n - 1]);
            }
        }
    }
}

/// Steps that write no segments at all.
proof fn lemma_idle_climbs(steps: Seq<Step>, n: int)
    requires
        forall|i: int|
            0 <= i < steps.len() ==> only_new(#[trigger] steps[i]) && !(steps[i] is WriteSegment)
                && !(steps[i] is WriteIndex),
    ensures
        climbs(steps, n, n),
{
}

/// The steps of a flush can be taken.
pub proof fn lemma_flush_fresh<N, S>(
    db: Database,
    disk: Disk,
    plan: FlushPlan,
    next_lsn: u64,
    kernel: Kernel<N, S>,
) where N: Fn(&[u32]) -> u32, S: Fn(Metric, &[u32], u32, &[u32], u32) -> u32
    requires
        db.flush_planned(plan, next_lsn, kernel),
        db.next_seg_id + plan.at@.len() <= u64::MAX,
    ensures
        fresh(trimmed(disk, db.next_seg_id), plan.steps@, 0),
{
    let steps = plan.steps@;
    let n = plan.at@.len();
    let head = steps.take(steps.len() - 2);
    let tail = steps.skip(steps.len() - 2);
    let first = db.next_seg_id;
    lemma_all_climb(db.collections@, plan.at@, first, plan.segs@, head, kernel, n);
    assert(tail[0] == steps[steps.len() - 2] && tail[1] == steps[steps.len() - 1]);
    lemma_idle_climbs(tail, first + n);
    lemma_join_climbs(head, tail, first as int, first + n, first + n);
    assert(head + tail =~= steps);
    lemma_climbs(trimmed(disk, first), steps, first as int, first + n);
}

/// The steps of putting a segment in the place of others can be taken.
pub proof fn lemma_renew_fresh(
    disk: Disk,
    steps: Seq<Step>,
    seg: Option<ImmutableSegment>,
    seg_id: u64,
    m: MutableSegment,
    manifest: ManifestView,
    gone: Seq<u64>,
)
    requires
        renews(steps, seg, seg_id, m, manifest, gone),
    ensures
        fresh(trimmed(disk, seg_id), steps, 0),
        forall|i: int|
            0 <= i < steps.len() ==> ((#[trigger] steps[i]) matches Step::WriteSegment(parts)
                ==> parts.meta.seg_id == seg_id && seg is Some),
{
    let k = steps.len() - gone.len() - 1;
    let head = steps.take(k);
    let tail = steps.skip(k);
    assert forall|i: int| 0 <= i < tail.len() implies only_new(#[trigger] tail[i]) && !(
    tail[i] is WriteSegment) && !(tail[i] is WriteIndex) by {
        assert(tail[i] == steps[k + i]);
        if i > 0 {
            assert(removes(steps, k + 1 + (i - 1), gone[i - 1]));
        }
    }
    lemma_idle_climbs(tail, seg_id + 1);
    match seg {
        Some(s) => {
            lemma_stores_climbs(head, s, seg_id, m);
        },
        None => {
            lemma_idle_climbs(head, seg_id as int);
            assert(climbs(head, seg_id as int, seg_id + 1));
        },
    }
    lemma_join_climbs(head, tail, seg_id as int, seg_id + 1, seg_id + 1);
    assert(head + tail =~= steps);
    lemma_climbs(trimmed(disk, seg_id), steps, seg_id as int, seg_id + 1);
    assert forall|i: int| 0 <= i < steps.len() implies ((
    #[trigger] steps[i]) matches Step::WriteSegment(parts) ==> parts.meta.seg_id == seg_id
        && seg is Some) by {
        if let Step::WriteSegment(parts) = steps[i] {
            assert(writes_segment(steps[i], parts.meta.seg_id));
            if i < k {
                assert(head[i] == steps[i]);
            } else {
                assert(tail[i - k] == steps[i]);
            }
        }
    }
}

/// The steps of a write can be taken.
pub proof fn lemma_write_fresh<N, S>(
    db: Database,
    after: Database,
    op: Op,
    kernel: Kernel<N, S>,
    a: Applied,
    disk: Disk,
    base: Disk,
    next_lsn: u64,
) where N: Fn(&[u32]) -> u32, S: Fn(Metric, &[u32], u32, &[u32], u32) -> u32
    requires
        durable(db, disk, next_lsn),
        base.segs == disk.segs,
        db.applies(after, op, kernel, a),
    ensures
        fresh(base, a.steps@, 0),
{
    let at = coll_at(db.collections@, subject(op@));
    let before = db.collections@[at];
    let new = after.collections@[at];
    let steps = a.steps@;
    lemma_coll_from(db.collections@, subject(op@), 0);
    match op {
        Op::CreateCollection { .. } => {},
        Op::DropCollection { .. } => {
            assert forall|k: int| 0 <= k < steps.len() implies can_take(
                #[trigger] reach(base, steps, k),
                steps[k],
            ) by {}
        },
        Op::Upsert { points, .. } => {
            if steps.len() > 0 {
                let touched = choose|touched: Seq<bool>| #[trigger]
                    before.view.upserts(new.view, points@, kernel, touched) && all_marks(
                        new.view.immutables@,
                        places(touched),
                        steps,
                    );
                assert forall|x: int| 0 <= x < new.view.immutables@.len() implies (
            #[trigger] new.view.immutables@[x]).number() == before.view.immutables@[x].number() by {
                assert(before.view.immutables@[x] == before.view.immutables@[x]);
            }
            lemma_same_numbers(db, disk, at, new.view.immutables@, base, next_lsn);
                lemma_marks_fresh(base, new.view.immutables@, touched, steps);
            }
        },
        Op::Delete { ids, .. } => {
            let touched = choose|touched: Seq<bool>| #[trigger]
                before.view.deletes(new.view, ids@, touched) && all_marks(
                    new.view.immutables@,
                    places(touched),
                    steps,
                );
            assert forall|x: int| 0 <= x < new.view.immutables@.len() implies (
            #[trigger] new.view.immutables@[x]).number() == before.view.immutables@[x].number() by {
                assert(before.view.immutables@[x] == before.view.immutables@[x]);
            }
            lemma_same_numbers(db, disk, at, new.view.immutables@, base, next_lsn);
            lemma_marks_fresh(base, new.view.immutables@, touched, steps);
        },
        Op::SetPayload { ids, payload, .. } => {
            let touched = choose|touched: Seq<bool>| #[trigger]
                before.view.pays(new.view, ids@, Some(payload@), touched) && all_overlays(
                    new.view.immutables@,
                    places(touched),
                    steps,
                );
            assert forall|x: int| 0 <= x < new.view.immutables@.len() implies (
            #[trigger] new.view.immutables@[x]).number() == before.view.immutables@[x].number() by {
                assert(before.view.immutables@[x] == before.view.immutables@[x]);
            }
            lemma_same_numbers(db, disk, at, new.view.immutables@, base, next_lsn);
            lemma_overlays_fresh(base, new.view.immutables@, touched, steps);
        },
        Op::ClearPayload { ids, .. } => {
            let touched = choose|touched: Seq<bool>| #[trigger]
                before.view.pays(new.view, ids@, None, touched) && all_overlays(
                    new.view.immutables@,
                    places(touched),
                    steps,
                );
            assert forall|x: int| 0 <= x < new.view.immutables@.len() implies (
            #[trigger] new.view.immutables@[x]).number() == before.view.immutables@[x].number() by {
                assert(before.view.immutables@[x] == before.view.immutables@[x]);
            }
            lemma_same_numbers(db, disk, at, new.view.immutables@, base, next_lsn);
            lemma_overlays_fresh(base, new.view.immutables@, touched, steps);
        },
    }
}

/// The segments of a collection that were changed are stored.
proof fn lemma_same_numbers(
    db: Database,
    disk: Disk,
    at: int,
    segs: Seq<ImmutableSegment>,
    base: Disk,
    next_lsn: u64,
)
    requires
        durable(db, disk, next_lsn),
        base.segs == disk.segs,
        0 <= at < db.collections@.len(),
        segs.len() == db.collections@[at].view.immutables@.len(),
        forall|x: int|
            0 <= x < segs.len() ==> (#[trigger] segs[x]).number()
                == db.collections@[at].view.immutables@[x].number(),
    ensures
        forall|x: int|
            0 <= x < segs.len() ==> base.segs.contains_key((#[trigger] segs[x]).number()),
{
    let c = db.collections@[at];
    assert(is_stored(disk, c));
    assert forall|x: int| 0 <= x < segs.len() implies base.segs.contains_key(
        (#[trigger] segs[x]).number(),
    ) by {
        assert(disk.segs.contains_key(c.view.immutables@[x].number()));
    }
}

/// A segment that is there stays where others are changed.
proof fn lemma_stays_there(disk: Disk, steps: Seq<Step>, id: u64)
    requires
        forall|i: int|
            0 <= i < steps.len() ==> (#[trigger] steps[i]) is WriteTombstones
                || steps[i] is WriteOverlay,
        disk.segs.contains_key(id),
    ensures
        disk.performed_all(steps).segs.contains_key(id),
    decreases steps.len(),
{
    if steps.len() > 0 {
        let rest = steps.drop_last();
        assert forall|i: int| 0 <= i < rest.len() implies (#[trigger] rest[i]) is WriteTombstones
            || rest[i] is WriteOverlay by {
            assert(steps[i] is WriteTombstones || steps[i] is WriteOverlay);
        }
        lemma_stays_there(disk, rest, id);
        assert(steps[steps.len() - 1] is WriteTombstones || steps[steps.len() - 1] is WriteOverlay);
    }
}

/// The marks of segments that are there can be stored.
proof fn lemma_marks_fresh(
    base: Disk,
    segs: Seq<ImmutableSegment>,
    touched: Seq<bool>,
    steps: Seq<Step>,
)
    requires
        all_marks(segs, places(touched), steps),
        touched.len() == segs.len(),
        forall|x: int|
            0 <= x < segs.len() ==> base.segs.contains_key((#[trigger] segs[x]).number()),
    ensures
        fresh(base, steps, 0),
{
    let at = places(touched);
    lemma_places(touched);
    assert forall|k: int| 0 <= k < steps.len() implies can_take(
        #[trigger] reach(base, steps, k),
        steps[k],
    ) by {
        let head = steps.take(k);
        assert(stores_marks(steps[k], segs[at[k]]));
        assert forall|i: int| 0 <= i < head.len() implies (#[trigger] head[i]) is WriteTombstones
            || head[i] is WriteOverlay by {
            assert(stores_marks(steps[i], segs[at[i]]));
        }
        assert(touched[at[k]]);
        lemma_stays_there(base, head, segs[at[k]].number());
    }
}

/// The new payloads of segments that are there can be stored.
proof fn lemma_overlays_fresh(
    base: Disk,
    segs: Seq<ImmutableSegment>,
    touched: Seq<bool>,
    steps: Seq<Step>,
)
    requires
        all_overlays(segs, places(touched), steps),
        touched.len() == segs.len(),
        forall|x: int|
            0 <= x < segs.len() ==> base.segs.contains_key((#[trigger] segs[x]).number()),
    ensures
        fresh(base, steps, 0),
{
    let at = places(touched);
    lemma_places(touched);
    assert forall|k: int| 0 <= k < steps.len() implies can_take(
        #[trigger] reach(base, steps, k),
        steps[k],
    ) by {
        let head = steps.take(k);
        assert(stores_overlay(steps[k], segs[at[k]]));
        assert forall|i: int| 0 <= i < head.len() implies (#[trigger] head[i]) is WriteTombstones
            || head[i] is WriteOverlay by {
            assert(stores_overlay(steps[i], segs[at[i]]));
        }
        assert(touched[at[k]]);
        lemma_stays_there(base, head, segs[at[k]].number());
    }
}

} // verus!
