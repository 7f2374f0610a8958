//! That a write survives a crash once it is in the log.

use vstd::prelude::*;

use crate::engine::apply::{all_marks, all_overlays, places, same_but_view, Applied};
use crate::engine::database::{
    coll_at, lemma_coll_at, lemma_coll_from, lemma_kept_none, Database, Step,
};
use crate::engine::disk::{lemma_performed_parts, alike, on_disk, settled_op, settled_over, Disk, StoredSegment};
use crate::engine::durable::{
    ascending, decides, distinct_in, durable, gives_back, has_num, has_seg, holds_less, is_stored,
    law_logged_write_is_given_back, lemma_nums_stored, lemma_stored_tidy, lemma_tidy_less, tidy,
    lemma_appended_opens, lemma_distinct_in, lemma_marks_stored, lemma_overlays_stored,
    lemma_places, lemma_presence, lemma_stacked_equal, lemma_touched, numbered, seg_number, stored,
    touches, touches_at,
};
use crate::engine::outcome::{
    agree, all_fit, law_replay_again, needs_collection, orderly, outcome, settled_kept, subject,
    Kept,
};
use crate::engine::renew::numbers;
use crate::engine::write::{gone_from, holds_any, laid_in, new_ids};
use crate::filter::listed;
use crate::id::{ExternalId, IdView};
use crate::json::JsonView;
use crate::kernel::{Kernel, Metric};
use crate::manifest::{
    entries_without, entry_at, lemma_entries_without, lemma_entry_from, lemma_entry_last,
    lemma_names_without, names_differ,
};
use crate::segment::immutable::{all_covered, covered, ImmutableSegment};
use crate::wal::{id_views, point_views, Op, OpView, RecordView};

verus! {

/// What the marks of a segment say changes a point only if it is one of those deleted.
proof fn lemma_marked(
    v: StoredSegment,
    before: ImmutableSegment,
    after: ImmutableSegment,
    gone: Set<IdView>,
    id: IdView,
)
    requires
        before.valid(),
        on_disk(v, before),
        before.without(after, gone),
    ensures
        agree(
            v.live(),
            (StoredSegment { dead: after.dead(), marked: true, ..v }).live(),
            id,
        ) || gone.contains(id),
        on_disk(StoredSegment { dead: after.dead(), marked: true, ..v }, after),
        !holds_any(before, gone) ==> on_disk(v, after),
{
    before.lemma_valid();
    if !gone.contains(id) && before.index().contains_key(id) {
        assert(before.rows()[before.index()[id] as int].id == id);
    }
    if !holds_any(before, gone) {
        assert(after.dead() =~= before.dead()) by {
            assert forall|r: u32| #[trigger] after.dead().contains(r) implies before.dead().contains(
                r,
            ) by {
                if !before.dead().contains(r) {
                    let other = before.rows()[r as int].id;
                    assert(before.store().rows()[r as int].id == other);
                    assert(before.index()[other] == r);
                    assert(before.live().contains_key(other));
                }
            }
        }
    }
}

/// What the new payloads of a segment say changes the payload of a point only if it is one
/// of those that got one.
proof fn lemma_laid_over(
    v: StoredSegment,
    before: ImmutableSegment,
    after: ImmutableSegment,
    ids: Set<IdView>,
    payload: Option<JsonView>,
    id: IdView,
)
    requires
        before.valid(),
        on_disk(v, before),
        before.laid(after, ids, payload),
        forall|i: IdView| #[trigger] ids.contains(i) ==> before.live().contains_key(i),
    ensures
        ({
            let w = StoredSegment { over: settled_over(after.over()), ..v };
            &&& agree(v.live(), w.live(), id) || ids.contains(id)
            &&& alike(v.live(), w.live(), id)
            &&& on_disk(w, after)
        }),
        !holds_any(before, ids) ==> on_disk(v, after),
{
    before.lemma_valid();
    let w = StoredSegment { over: settled_over(after.over()), ..v };
    if before.index().contains_key(id) {
        let r = before.index()[id] as int;
        assert(before.store().rows()[r].id == id) by {
            assert(before.rows()[r].id == id);
        }
        assert(all_covered(v.rows, v.over)[r] == covered(v.rows[r], v.over));
        assert(all_covered(w.rows, w.over)[r] == covered(w.rows[r], w.over));
    }
    if !holds_any(before, ids) {
        assert(after.over() =~= before.over()) by {
            assert forall|i: IdView| !(#[trigger] ids.contains(i)) by {
                if ids.contains(i) {
                    assert(before.live().contains_key(i));
                }
            }
        }
    }
}

/// Whether a database is another one but for the segments of a collection, which keep
/// their numbers.
spec fn reworked(db: Database, after: Database, at: int) -> bool {
    let before = db.collections@[at];
    let new = after.collections@[at];
    &&& 0 <= at < db.collections@.len()
    &&& after.manifest == db.manifest
    &&& after.next_seg_id == db.next_seg_id
    &&& after.collections@ == db.collections@.update(at, new)
    &&& same_but_view(before, new)
    &&& new.view.immutables@.len() == before.view.immutables@.len()
    &&& forall|x: int|
        0 <= x < before.view.immutables@.len() ==> (
        #[trigger] new.view.immutables@[x]).number() == before.view.immutables@[x].number()
}

/// Once all is stored, what is stored is what is in memory.
proof fn lemma_reworked(
    db: Database,
    after: Database,
    disk: Disk,
    end: Disk,
    next_lsn: u64,
    at: int,
    op: OpView,
    rec: RecordView,
)
    requires
        durable(db, disk, next_lsn),
        next_lsn < u64::MAX,
        rec.lsn == next_lsn,
        needs_collection(op),
        reworked(db, after, at),
        after.valid(),
        after.apart(),
        touches(disk, end, db.collections@[at], op, rec),
        gives_back(end, after),
        forall|name: Seq<char>| #[trigger]
            after.kept(name) == outcome(db.kept(name), op, name),
        forall|x: int|
            0 <= x < after.collections@[at].view.immutables@.len() ==> on_disk(
                end.segs[(#[trigger] after.collections@[at].view.immutables@[x]).number()],
                after.collections@[at].view.immutables@[x],
            ),
    ensures
        durable(after, end, (next_lsn + 1) as u64),
{
    let before = db.collections@[at];
    let new = after.collections@[at];
    assert(is_stored(disk, before));
    assert forall|i: int, j: int| #[trigger] has_seg(after, i, j) implies has_seg(db, i, j)
        && seg_number(after, i, j) == seg_number(db, i, j) by {
        if i == at {
            assert(new.view.immutables@[j].number() == before.view.immutables@[j].number());
        }
    }
    assert(numbered(after)) by {
        assert forall|i: int, j: int, x: int, y: int| #[trigger]
            has_seg(after, i, j) && #[trigger] has_seg(after, x, y) && seg_number(after, i, j)
                == seg_number(after, x, y) implies i == x && j == y by {
            assert(has_seg(db, i, j) && has_seg(db, x, y));
        }
    }
    assert(numbers(new.view.immutables@) =~= numbers(before.view.immutables@));
    assert forall|i: int| 0 <= i < after.collections@.len() implies is_stored(
        end,
        #[trigger] after.collections@[i],
    ) by {
        let c = after.collections@[i];
        assert(is_stored(disk, db.collections@[i]));
        if i == at {
            assert forall|j: int| 0 <= j < c.view.immutables@.len() implies end.segs.contains_key(
                (#[trigger] c.view.immutables@[j]).number(),
            ) && on_disk(end.segs[c.view.immutables@[j].number()], c.view.immutables@[j]) by {
                assert(disk.segs.contains_key(before.view.immutables@[j].number()));
                assert(new.view.immutables@[j].number() == before.view.immutables@[j].number());
            }
        } else {
            assert(c == db.collections@[i]);
            assert forall|j: int| 0 <= j < c.view.immutables@.len() implies end.segs.contains_key(
                (#[trigger] c.view.immutables@[j]).number(),
            ) && on_disk(end.segs[c.view.immutables@[j].number()], c.view.immutables@[j]) by {
                let num = c.view.immutables@[j].number();
                assert(disk.segs.contains_key(num));
                assert(has_seg(db, i, j));
                assert forall|x: int| 0 <= x < before.view.immutables@.len() implies (
                #[trigger] before.view.immutables@[x]).number() != num by {
                    assert(has_seg(db, at, x));
                    assert(seg_number(db, at, x) != seg_number(db, i, j));
                }
                assert(end.segs[num] == disk.segs[num]);
            }
        }
    }
    assert forall|name: Seq<char>| #[trigger]
        after.kept(name) is Some <==> entry_at(end.manifest.entries, name)
            < end.manifest.entries.len() by {
        assert(after.kept(name) == outcome(db.kept(name), op, name));
        assert(db.kept(name) is Some <==> entry_at(disk.manifest.entries, name)
            < disk.manifest.entries.len());
    }
    assert forall|i: int| 0 <= i < end.log.len() implies (#[trigger] end.log[i]).lsn < (next_lsn
        + 1) as u64 by {
        if i < disk.log.len() {
            assert(end.log[i] == disk.log[i]);
        }
    }
}

/// A write that marks rows as deleted survives.
proof fn lemma_marking_survives(
    db: Database,
    after: Database,
    disk: Disk,
    next_lsn: u64,
    at: int,
    op: OpView,
    rec: RecordView,
    gone: Seq<Set<IdView>>,
    touched: Seq<bool>,
    steps: Seq<Step>,
    k: int,
)
    requires
        durable(db, disk, next_lsn),
        rec.lsn == next_lsn,
        settled_op(rec.op) == settled_op(op),
        op is Upsert || op is Delete,
        reworked(db, after, at),
        subject(op) == db.collections@[at].name@,
        after.valid(),
        db.follows(after, op),
        gone.len() == touched.len(),
        touched.len() == db.collections@[at].view.immutables@.len(),
        forall|x: int|
            0 <= x < touched.len() ==> (#[trigger] db.collections@[at].view.immutables@[x]).without(
                after.collections@[at].view.immutables@[x],
                gone[x],
            ),
        forall|x: int|
            0 <= x < touched.len() ==> (#[trigger] touched[x]) == holds_any(
                db.collections@[at].view.immutables@[x],
                gone[x],
            ),
        forall|x: int, id: IdView|
            0 <= x < touched.len() && (#[trigger] gone[x].contains(id)) ==> decides(
                op,
                db.collections@[at].config.dim as nat,
                id,
            ),
        all_marks(after.collections@[at].view.immutables@, places(touched), steps),
        0 <= k <= steps.len(),
    ensures
        gives_back(disk.appended(rec).performed_all(steps.take(k)), after),
        k == steps.len() && next_lsn < u64::MAX ==> durable(
            after,
            disk.appended(rec).performed_all(steps),
            (next_lsn + 1) as u64,
        ),
{
    let c = db.collections@[at];
    let old_segs = c.view.immutables@;
    let segs = after.collections@[at].view.immutables@;
    let places = places(touched);
    let logged = disk.appended(rec);
    let end = logged.performed_all(steps.take(k));
    assert(is_stored(disk, c));
    assert(c.valid());
    lemma_distinct_in(db, at);
    lemma_places(touched);
    assert(distinct_in(segs)) by {
        assert forall|a: int, b: int| 0 <= a < b < segs.len() implies (
        #[trigger] segs[a]).number() != (#[trigger] segs[b]).number() by {
            assert(segs[a].number() == old_segs[a].number());
            assert(segs[b].number() == old_segs[b].number());
        }
    }
    assert forall|x: int| 0 <= x < segs.len() implies logged.segs.contains_key(
        (#[trigger] segs[x]).number(),
    ) by {
        assert(segs[x].number() == old_segs[x].number());
    }
    lemma_marks_stored(logged, segs, places, steps, k);
    assert(touches(disk, end, c, op, rec)) by {
        assert forall|num: u64|
            (forall|x: int|
                0 <= x < old_segs.len() ==> (#[trigger] old_segs[x]).number()
                    != num) implies #[trigger] end.segs[num] == disk.segs[num] by {
            assert forall|x: int| 0 <= x < segs.len() implies (
            #[trigger] segs[x]).number() != num by {
                assert(segs[x].number() == old_segs[x].number());
            }
        }
        assert forall|x: int, id: IdView|
            #![trigger touches_at(disk, end, c, op, x, id)]
            0 <= x < old_segs.len() implies touches_at(disk, end, c, op, x, id) by {
            assert(old_segs[x].valid());
            assert(segs[x].number() == old_segs[x].number());
            lemma_marked(disk.segs[old_segs[x].number()], old_segs[x], segs[x], gone[x], id);
            if gone[x].contains(id) {
                assert(decides(op, c.config.dim as nat, id));
            }
        }
    }
    assert(tidy(end)) by {
        assert forall|num: u64| #[trigger] disk.segs.contains_key(num) implies holds_less(
            disk,
            end,
            num,
        ) by {
            if exists|x: int| 0 <= x < segs.len() && (#[trigger] segs[x]).number() == num {
                let x = choose|x: int| 0 <= x < segs.len() && (#[trigger] segs[x]).number() == num;
                assert(segs[x].number() == old_segs[x].number());
                assert(old_segs[x].without(segs[x], gone[x]));
            } else {
                assert(end.segs[num] == logged.segs[num]);
            }
        }
        lemma_touched_tidy(db, disk, end, rec, next_lsn);
    }
    assert(gives_back(end, after)) by {
        assert forall|name: Seq<char>| #[trigger]
            orderly(end.base(name), end.log, end.manifest.last_flushed_lsn, name) by {
            lemma_touched(db, disk, next_lsn, at, op, rec, end, name);
        }
        assert forall|name: Seq<char>| #[trigger]
            settled_kept(end.recovered(name)) == settled_kept(after.kept(name)) by {
            lemma_touched(db, disk, next_lsn, at, op, rec, end, name);
        }
    }
    if k == steps.len() && next_lsn < u64::MAX {
        assert(steps.take(k) =~= steps);
        assert forall|x: int| 0 <= x < segs.len() implies on_disk(
            end.segs[(#[trigger] segs[x]).number()],
            segs[x],
        ) by {
            assert(old_segs[x].valid());
            assert(segs[x].number() == old_segs[x].number());
            lemma_marked(
                disk.segs[old_segs[x].number()],
                old_segs[x],
                segs[x],
                gone[x],
                IdView::Num(0),
            );
            assert(places.take(k) =~= places);
            if touched[x] {
                assert(places.contains(x));
            } else {
                if places.contains(x) {
                    let y = choose|y: int| 0 <= y < places.len() && places[y] == x;
                    assert(touched[places[y]]);
                }
            }
        }
        lemma_reworked(db, after, disk, end, next_lsn, at, op, rec);
    }
}

/// A write that gives points a payload survives.
proof fn lemma_paying_survives(
    db: Database,
    after: Database,
    disk: Disk,
    next_lsn: u64,
    at: int,
    op: OpView,
    rec: RecordView,
    ids: Seq<Set<IdView>>,
    payload: Option<JsonView>,
    touched: Seq<bool>,
    steps: Seq<Step>,
    k: int,
)
    requires
        durable(db, disk, next_lsn),
        rec.lsn == next_lsn,
        settled_op(rec.op) == settled_op(op),
        op is Pay,
        reworked(db, after, at),
        subject(op) == db.collections@[at].name@,
        after.valid(),
        db.follows(after, op),
        ids.len() == touched.len(),
        touched.len() == db.collections@[at].view.immutables@.len(),
        forall|x: int|
            0 <= x < touched.len() ==> (#[trigger] db.collections@[at].view.immutables@[x]).laid(
                after.collections@[at].view.immutables@[x],
                ids[x],
                payload,
            ),
        forall|x: int|
            0 <= x < touched.len() ==> (#[trigger] touched[x]) == holds_any(
                db.collections@[at].view.immutables@[x],
                ids[x],
            ),
        forall|x: int, id: IdView|
            0 <= x < touched.len() && (#[trigger] ids[x].contains(id)) ==> decides(
                op,
                db.collections@[at].config.dim as nat,
                id,
            ) && db.collections@[at].view.immutables@[x].live().contains_key(id),
        all_overlays(after.collections@[at].view.immutables@, places(touched), steps),
        0 <= k <= steps.len(),
    ensures
        gives_back(disk.appended(rec).performed_all(steps.take(k)), after),
        k == steps.len() && next_lsn < u64::MAX ==> durable(
            after,
            disk.appended(rec).performed_all(steps),
            (next_lsn + 1) as u64,
        ),
{
    let c = db.collections@[at];
    let old_segs = c.view.immutables@;
    let segs = after.collections@[at].view.immutables@;
    let places = places(touched);
    let logged = disk.appended(rec);
    let end = logged.performed_all(steps.take(k));
    assert(is_stored(disk, c));
    assert(c.valid());
    lemma_distinct_in(db, at);
    lemma_places(touched);
    assert(distinct_in(segs)) by {
        assert forall|a: int, b: int| 0 <= a < b < segs.len() implies (
        #[trigger] segs[a]).number() != (#[trigger] segs[b]).number() by {
            assert(segs[a].number() == old_segs[a].number());
            assert(segs[b].number() == old_segs[b].number());
        }
    }
    assert forall|x: int| 0 <= x < segs.len() implies logged.segs.contains_key(
        (#[trigger] segs[x]).number(),
    ) by {
        assert(segs[x].number() == old_segs[x].number());
    }
    lemma_overlays_stored(logged, segs, places, steps, k);
    assert(touches(disk, end, c, op, rec)) by {
        assert forall|num: u64|
            (forall|x: int|
                0 <= x < old_segs.len() ==> (#[trigger] old_segs[x]).number()
                    != num) implies #[trigger] end.segs[num] == disk.segs[num] by {
            assert forall|x: int| 0 <= x < segs.len() implies (
            #[trigger] segs[x]).number() != num by {
                assert(segs[x].number() == old_segs[x].number());
            }
        }
        assert forall|x: int, id: IdView|
            #![trigger touches_at(disk, end, c, op, x, id)]
            0 <= x < old_segs.len() implies touches_at(disk, end, c, op, x, id) by {
            assert(old_segs[x].valid());
            assert(segs[x].number() == old_segs[x].number());
            lemma_laid_over(
                disk.segs[old_segs[x].number()],
                old_segs[x],
                segs[x],
                ids[x],
                payload,
                id,
            );
            if ids[x].contains(id) {
                assert(decides(op, c.config.dim as nat, id));
            }
        }
    }
    assert(tidy(end)) by {
        assert forall|num: u64| #[trigger] disk.segs.contains_key(num) implies holds_less(
            disk,
            end,
            num,
        ) by {
            if exists|x: int| 0 <= x < segs.len() && (#[trigger] segs[x]).number() == num {
                let x = choose|x: int| 0 <= x < segs.len() && (#[trigger] segs[x]).number() == num;
                assert(segs[x].number() == old_segs[x].number());
                assert(segs[x].number() == num);
            } else {
                assert(end.segs[num] == logged.segs[num]);
            }
        }
        lemma_touched_tidy(db, disk, end, rec, next_lsn);
    }
    assert(gives_back(end, after)) by {
        assert forall|name: Seq<char>| #[trigger]
            orderly(end.base(name), end.log, end.manifest.last_flushed_lsn, name) by {
            lemma_touched(db, disk, next_lsn, at, op, rec, end, name);
        }
        assert forall|name: Seq<char>| #[trigger]
            settled_kept(end.recovered(name)) == settled_kept(after.kept(name)) by {
            lemma_touched(db, disk, next_lsn, at, op, rec, end, name);
        }
    }
    if k == steps.len() && next_lsn < u64::MAX {
        assert(steps.take(k) =~= steps);
        assert forall|x: int| 0 <= x < segs.len() implies on_disk(
            end.segs[(#[trigger] segs[x]).number()],
            segs[x],
        ) by {
            assert(old_segs[x].valid());
            assert(segs[x].number() == old_segs[x].number());
            lemma_laid_over(
                disk.segs[old_segs[x].number()],
                old_segs[x],
                segs[x],
                ids[x],
                payload,
                IdView::Num(0),
            );
            assert(places.take(k) =~= places);
            if touched[x] {
                assert(places.contains(x));
            } else {
                if places.contains(x) {
                    let y = choose|y: int| 0 <= y < places.len() && places[y] == x;
                    assert(touched[places[y]]);
                }
            }
        }
        lemma_reworked(db, after, disk, end, next_lsn, at, op, rec);
    }
}

/// What is stored hangs together where segments lost points, and a record was logged.
proof fn lemma_touched_tidy(
    db: Database,
    disk: Disk,
    end: Disk,
    rec: RecordView,
    next_lsn: u64,
)
    requires
        durable(db, disk, next_lsn),
        rec.lsn == next_lsn,
        end.manifest == disk.manifest,
        end.log == disk.log.push(rec),
        forall|num: u64| #[trigger] disk.segs.contains_key(num) ==> holds_less(disk, end, num),
    ensures
        tidy(end),
{
    lemma_longer(disk, rec, next_lsn, db);
    let entries = disk.manifest.entries;
    assert forall|i: int, j: int| #[trigger] has_num(entries, i, j) implies holds_less(
        disk,
        end,
        entries[i].segments[j],
    ) by {
        lemma_nums_stored(db, disk, i, j);
    }
    lemma_tidy_less(disk, end);
}

/// The numbers of the records go up where one more is logged.
proof fn lemma_longer(disk: Disk, rec: RecordView, next_lsn: u64, db: Database)
    requires
        durable(db, disk, next_lsn),
        rec.lsn == next_lsn,
    ensures
        ascending(disk.log.push(rec)),
{
    let log = disk.log.push(rec);
    assert forall|i: int, j: int| 0 <= i < j < log.len() implies (#[trigger] log[i]).lsn < (
    #[trigger] log[j]).lsn by {
        assert(disk.log[i].lsn < next_lsn);
        if j < disk.log.len() {
            assert(disk.log[i].lsn < disk.log[j].lsn);
        }
    }
}

/// A record in the log is given back before anything else is stored.
proof fn lemma_logged(
    db: Database,
    after: Database,
    disk: Disk,
    next_lsn: u64,
    op: OpView,
    rec: RecordView,
)
    requires
        durable(db, disk, next_lsn),
        rec.lsn == next_lsn,
        settled_op(rec.op) == settled_op(op),
        needs_collection(op) ==> db.kept(subject(op)) is Some,
        db.follows(after, op),
    ensures
        gives_back(disk.appended(rec), after),
{
    let end = disk.appended(rec);
    assert forall|num: u64| #[trigger] disk.segs.contains_key(num) implies holds_less(
        disk,
        end,
        num,
    ) by {}
    lemma_touched_tidy(db, disk, end, rec, next_lsn);
    assert forall|name: Seq<char>| #[trigger]
        orderly(end.base(name), end.log, end.manifest.last_flushed_lsn, name) by {
        assert(end.base(name) == disk.base(name));
        lemma_appended_opens(db, disk, next_lsn, op, rec, name);
    }
    assert forall|name: Seq<char>| #[trigger]
        settled_kept(end.recovered(name)) == settled_kept(after.kept(name)) by {
        law_logged_write_is_given_back(db, disk, next_lsn, op, rec, name);
    }
}

/// A record that changes nothing keeps all durable.
proof fn lemma_idle(
    db: Database,
    after: Database,
    disk: Disk,
    next_lsn: u64,
    op: OpView,
    rec: RecordView,
)
    requires
        durable(db, disk, next_lsn),
        next_lsn < u64::MAX,
        rec.lsn == next_lsn,
        settled_op(rec.op) == settled_op(op),
        needs_collection(op) ==> db.kept(subject(op)) is Some,
        db.follows(after, op),
        after.collections == db.collections,
        after.manifest == db.manifest,
        after.next_seg_id == db.next_seg_id,
    ensures
        durable(after, disk.appended(rec), (next_lsn + 1) as u64),
{
    let end = disk.appended(rec);
    lemma_logged(db, after, disk, next_lsn, op, rec);
    assert forall|i: int| 0 <= i < after.collections@.len() implies is_stored(
        end,
        #[trigger] after.collections@[i],
    ) by {
        assert(is_stored(disk, db.collections@[i]));
    }
    assert forall|i: int, j: int| #[trigger] has_seg(after, i, j) == has_seg(db, i, j)
        && seg_number(after, i, j) == seg_number(db, i, j) by {}
    assert(numbered(after)) by {
        assert forall|i: int, j: int, x: int, y: int| #[trigger]
            has_seg(after, i, j) && #[trigger] has_seg(after, x, y) && seg_number(after, i, j)
                == seg_number(after, x, y) implies i == x && j == y by {
            assert(has_seg(db, i, j) && has_seg(db, x, y));
        }
        assert forall|i: int, j: int| #[trigger] has_seg(after, i, j) implies seg_number(after, i, j)
            < after.next_seg_id by {
            assert(has_seg(db, i, j));
        }
    }
    assert forall|name: Seq<char>| #[trigger]
        after.kept(name) is Some <==> entry_at(end.manifest.entries, name)
            < end.manifest.entries.len() by {
        assert(db.kept(name) is Some <==> entry_at(disk.manifest.entries, name)
            < disk.manifest.entries.len());
    }
    assert forall|i: int| 0 <= i < end.log.len() implies (#[trigger] end.log[i]).lsn < (next_lsn
        + 1) as u64 by {
        if i < disk.log.len() {
            assert(end.log[i] == disk.log[i]);
        }
    }
}

/// Making a collection survives.
proof fn lemma_making_survives(
    db: Database,
    after: Database,
    disk: Disk,
    next_lsn: u64,
    op: OpView,
    rec: RecordView,
    a: Applied,
    k: int,
)
    requires
        durable(db, disk, next_lsn),
        rec.lsn == next_lsn,
        settled_op(rec.op) == settled_op(op),
        op is Create,
        db.creates(after, subject(op), op->config, a),
        after.valid(),
        db.rest_same(after),
        db.follows(after, op),
        0 <= k <= a.steps@.len(),
    ensures
        gives_back(disk.appended(rec).performed_all(a.steps@.take(k)), after),
        k == a.steps@.len() && next_lsn < u64::MAX ==> durable(
            after,
            disk.appended(rec).performed_all(a.steps@),
            (next_lsn + 1) as u64,
        ),
{
    let logged = disk.appended(rec);
    let steps = a.steps@;
    let end = logged.performed_all(steps.take(k));
    lemma_logged(db, after, disk, next_lsn, op, rec);
    lemma_kept_none(db.collections@, subject(op));
    if k == 0 {
        assert(steps.take(0) =~= Seq::<Step>::empty());
        if steps.len() == 0 && next_lsn < u64::MAX {
            assert(steps =~= Seq::<Step>::empty());
            lemma_idle(db, after, disk, next_lsn, op, rec);
        }
    } else {
        assert(steps.take(1) =~= steps);
        assert(steps.drop_last() =~= Seq::<Step>::empty());
        assert(logged.performed_all(Seq::<Step>::empty()) == logged);
        assert(steps.last() == steps[0]);
        assert(logged.performed_all(steps) == logged.performed(steps[0]));
        assert(end == (Disk { manifest: after.manifest@, ..logged }));
        let made = subject(op);
        let old_entries = disk.manifest.entries;
        let entries = end.manifest.entries;
        let floor = disk.manifest.last_flushed_lsn;
        assert(entries.drop_last() =~= old_entries);
        assert(db.kept(made) is None);
        assert forall|name: Seq<char>|
            end.base(name) == (if name == made {
                Some(Kept { config: op->config, points: Map::empty() })
            } else {
                disk.base(name)
            }) by {
            assert(db.kept(name) is Some <==> entry_at(old_entries, name) < old_entries.len());
            lemma_entry_from(old_entries, name, 0);
            lemma_entry_last(entries, name);
        }
        assert forall|name: Seq<char>| #[trigger]
            orderly(end.base(name), end.log, end.manifest.last_flushed_lsn, name) && settled_kept(
                end.recovered(name),
            ) == settled_kept(after.kept(name)) by {
            lemma_appended_opens(db, disk, next_lsn, op, rec, name);
            law_logged_write_is_given_back(db, disk, next_lsn, op, rec, name);
            assert(after.kept(name) == outcome(db.kept(name), op, name));
            if name == made {
                let now = Some(Kept { config: op->config, points: Map::empty() });
                assert(disk.base(made) is None) by {
                    assert(db.kept(made) is Some <==> entry_at(old_entries, made)
                        < old_entries.len());
                }
                lemma_presence(None, now, end.log, floor, made);
                law_replay_again(None, end.log, floor, made, now);
            }
        }
        {
            assert(names_differ(entries)) by {
                assert(db.kept(made) is Some <==> entry_at(old_entries, made) < old_entries.len());
                lemma_entry_from(old_entries, made, 0);
                assert forall|i: int, j: int| 0 <= i < j < entries.len() implies (
                #[trigger] entries[i]).name != (#[trigger] entries[j]).name by {
                    assert(entries[i] == old_entries[i]);
                    if j < old_entries.len() {
                        assert(entries[j] == old_entries[j]);
                    }
                }
            }
            let new = after.collections@.last();
            assert(new.name@ == made);
            assert forall|i: int, j: int| #[trigger] has_seg(after, i, j) implies has_seg(db, i, j)
                && seg_number(after, i, j) == seg_number(db, i, j) by {
                if i < db.collections@.len() {
                    assert(after.collections@.drop_last()[i] == db.collections@[i]);
                }
            }
            assert(numbered(after)) by {
                assert forall|i: int, j: int, x: int, y: int| #[trigger]
                    has_seg(after, i, j) && #[trigger] has_seg(after, x, y) && seg_number(
                        after,
                        i,
                        j,
                    ) == seg_number(after, x, y) implies i == x && j == y by {
                    assert(has_seg(db, i, j) && has_seg(db, x, y));
                }
            }
            assert forall|i: int| 0 <= i < after.collections@.len() implies is_stored(
                end,
                #[trigger] after.collections@[i],
            ) by {
                let c = after.collections@[i];
                lemma_entry_last(entries, c.name@);
                lemma_entry_from(old_entries, c.name@, 0);
                if i < db.collections@.len() {
                    assert(after.collections@.drop_last()[i] == db.collections@[i]);
                    assert(is_stored(disk, db.collections@[i]));
                } else {
                    assert(numbers(c.view.immutables@) =~= Seq::<u64>::empty());
                    assert(db.kept(made) is Some <==> entry_at(old_entries, made)
                        < old_entries.len());
                }
            }
            assert forall|name: Seq<char>| #[trigger]
                after.kept(name) is Some <==> entry_at(entries, name) < entries.len() by {
                assert(db.kept(name) is Some <==> entry_at(old_entries, name)
                    < old_entries.len());
                assert(after.kept(name) == outcome(db.kept(name), op, name));
                lemma_entry_last(entries, name);
                lemma_entry_from(old_entries, name, 0);
            }
            lemma_longer(disk, rec, next_lsn, db);
            assert(stored(after, end));
            lemma_stored_tidy(after, end);
        }
        assert(gives_back(end, after)) by {
            assert forall|name: Seq<char>| #[trigger]
                settled_kept(end.recovered(name)) == settled_kept(after.kept(name)) by {
                assert(orderly(end.base(name), end.log, end.manifest.last_flushed_lsn, name));
            }
        }
        if next_lsn < u64::MAX {
            assert forall|i: int| 0 <= i < end.log.len() implies (#[trigger] end.log[i]).lsn < (
            next_lsn + 1) as u64 by {
                if i < disk.log.len() {
                    assert(end.log[i] == disk.log[i]);
                }
            }
        }
    }
}

/// What is stored once some segments were removed.
pub proof fn lemma_removed(disk: Disk, ids: Seq<u64>, steps: Seq<Step>, k: int)
    requires
        steps.len() == ids.len(),
        forall|j: int|
            0 <= j < steps.len() ==> #[trigger] steps[j] == Step::RemoveSegment(ids[j]),
        0 <= k <= steps.len(),
    ensures
        ({
            let after = disk.performed_all(steps.take(k));
            &&& after.manifest == disk.manifest
            &&& after.log == disk.log
            &&& forall|num: u64| #[trigger]
                after.segs.contains_key(num) ==> disk.segs.contains_key(num)
            &&& forall|num: u64| #[trigger]
                disk.segs.contains_key(num) && !ids.contains(num) ==> after.segs.contains_key(num)
                    && after.segs[num] == disk.segs[num]
        }),
    decreases k,
{
    if k > 0 {
        lemma_removed(disk, ids, steps, k - 1);
        assert(steps.take(k).drop_last() =~= steps.take(k - 1));
        assert(steps.take(k).last() == steps[k - 1]);
        assert(ids.contains(ids[k - 1]));
    } else {
        assert(steps.take(0) =~= Seq::<Step>::empty());
    }
}

/// Dropping a collection survives.
#[verifier::rlimit(60)]
proof fn lemma_dropping_survives(
    db: Database,
    after: Database,
    disk: Disk,
    next_lsn: u64,
    op: OpView,
    rec: RecordView,
    a: Applied,
    k: int,
)
    requires
        durable(db, disk, next_lsn),
        rec.lsn == next_lsn,
        settled_op(rec.op) == settled_op(op),
        op is Drop,
        db.drops(after, subject(op), a),
        after.valid(),
        db.rest_same(after),
        db.follows(after, op),
        0 <= k <= a.steps@.len(),
    ensures
        gives_back(disk.appended(rec).performed_all(a.steps@.take(k)), after),
        k == a.steps@.len() && next_lsn < u64::MAX ==> durable(
            after,
            disk.appended(rec).performed_all(a.steps@),
            (next_lsn + 1) as u64,
        ),
{
    let logged = disk.appended(rec);
    let steps = a.steps@;
    let end = logged.performed_all(steps.take(k));
    lemma_logged(db, after, disk, next_lsn, op, rec);
    if k == 0 {
        assert(steps.take(0) =~= Seq::<Step>::empty());
    } else {
        let gone = subject(op);
        let at = coll_at(db.collections@, gone);
        let old_entries = disk.manifest.entries;
        let floor = disk.manifest.last_flushed_lsn;
        let entry = entry_at(old_entries, gone);
        let ids = if entry < old_entries.len() {
            old_entries[entry].segments
        } else {
            Seq::<u64>::empty()
        };
        let mid = Disk { manifest: after.manifest@, ..logged };
        let tail = steps.skip(1);
        assert(logged.performed_all(Seq::<Step>::empty()) == logged);
        assert(steps.take(k).take(1).drop_last() =~= Seq::<Step>::empty());
        assert(steps.take(k).take(1).last() == steps[0]);
        assert(logged.performed_all(steps.take(k).take(1)) == logged.performed(steps[0]));
        assert(logged.performed(steps[0]) == mid);
        lemma_performed_parts(logged, steps.take(k), 1);
        assert(steps.take(k).skip(1) =~= tail.take(k - 1));
        assert forall|j: int| 0 <= j < tail.len() implies #[trigger] tail[j]
            == Step::RemoveSegment(ids[j]) by {
            assert(steps[j + 1] == Step::RemoveSegment(ids[j]));
        }
        lemma_removed(mid, ids, tail, k - 1);
        lemma_kept_none(db.collections@, gone);
        lemma_coll_from(db.collections@, gone, 0);
        assert(at < db.collections@.len() ==> ids == numbers(db.collections@[at].view.immutables@))
            by {
            if at < db.collections@.len() {
                assert(is_stored(disk, db.collections@[at]));
            }
        }
        assert(at == db.collections@.len() ==> ids =~= Seq::<u64>::empty()) by {
            assert(db.kept(gone) is Some <==> entry < old_entries.len());
        }
        let entries = end.manifest.entries;
        // The segments of the other collections stay.
        assert forall|i: int, j: int|
            #[trigger] has_seg(db, i, j) && i != at implies end.segs.contains_key(
            seg_number(db, i, j),
        ) && end.segs[seg_number(db, i, j)] == disk.segs[seg_number(db, i, j)] by {
            let num = seg_number(db, i, j);
            assert(is_stored(disk, db.collections@[i]));
            assert(disk.segs.contains_key(db.collections@[i].view.immutables@[j].number()));
            if ids.contains(num) {
                let y = choose|y: int| 0 <= y < ids.len() && ids[y] == num;
                assert(has_seg(db, at, y));
                assert(seg_number(db, at, y) == num);
            }
            assert(mid.segs.contains_key(num));
        }
        assert forall|name: Seq<char>| #[trigger]
            end.base(name) == (if name == gone {
                None
            } else {
                disk.base(name)
            }) by {
            lemma_entries_without(old_entries, gone, name);
            lemma_kept_none(db.collections@, name);
            lemma_coll_from(db.collections@, name, 0);
            if name != gone && db.kept(name) is Some {
                let i = coll_at(db.collections@, name);
                let c = db.collections@[i];
                assert(is_stored(disk, c));
                let nums = numbers(c.view.immutables@);
                assert forall|j: int| 0 <= j < nums.len() implies end.segs[#[trigger] nums[j]]
                    == disk.segs[nums[j]] by {
                    assert(has_seg(db, i, j));
                    assert(seg_number(db, i, j) == nums[j]);
                }
                lemma_stacked_equal(end.segs, disk.segs, nums);
            } else if name != gone {
                assert(db.kept(name) is Some <==> entry_at(old_entries, name)
                    < old_entries.len());
            }
        }
        assert forall|name: Seq<char>| #[trigger]
            orderly(end.base(name), end.log, end.manifest.last_flushed_lsn, name) && settled_kept(
                end.recovered(name),
            ) == settled_kept(after.kept(name)) by {
            lemma_appended_opens(db, disk, next_lsn, op, rec, name);
            law_logged_write_is_given_back(db, disk, next_lsn, op, rec, name);
            assert(after.kept(name) == outcome(db.kept(name), op, name));
            assert(end.log.drop_last() =~= disk.log);
            assert(logged.base(name) == disk.base(name));
            if name == gone {
                assert(end.base(name) is None);
            } else {
                assert(end.base(name) == disk.base(name));
            }
        }
        {
            lemma_rest_stored(db, after, disk, end, at, gone);
            lemma_names_without(old_entries, gone);
            assert forall|name: Seq<char>| #[trigger]
                after.kept(name) is Some <==> entry_at(entries, name) < entries.len() by {
                assert(db.kept(name) is Some <==> entry_at(old_entries, name)
                    < old_entries.len());
                assert(after.kept(name) == outcome(db.kept(name), op, name));
                lemma_entries_without(old_entries, gone, name);
                lemma_entry_from(entries, name, 0);
            }
            lemma_longer(disk, rec, next_lsn, db);
            assert(end.log == disk.log.push(rec));
            assert(stored(after, end));
            lemma_stored_tidy(after, end);
        }
        assert(gives_back(end, after)) by {
            assert forall|name: Seq<char>| #[trigger]
                settled_kept(end.recovered(name)) == settled_kept(after.kept(name)) by {
                assert(orderly(end.base(name), end.log, end.manifest.last_flushed_lsn, name));
            }
        }
        if k == steps.len() && next_lsn < u64::MAX {
            assert(steps.take(k) =~= steps);
            assert forall|i: int| 0 <= i < end.log.len() implies (#[trigger] end.log[i]).lsn < (
            next_lsn + 1) as u64 by {
                if i < disk.log.len() {
                    assert(end.log[i] == disk.log[i]);
                }
            }
        }
    }
}

/// Once a collection is gone, the others are stored as before.
proof fn lemma_rest_stored(
    db: Database,
    after: Database,
    disk: Disk,
    end: Disk,
    at: int,
    gone: Seq<char>,
)
    requires
        stored(db, disk),
        at == coll_at(db.collections@, gone),
        after.collections@ == (if at < db.collections@.len() {
            db.collections@.remove(at)
        } else {
            db.collections@
        }),
        after.next_seg_id == db.next_seg_id,
        forall|i: int, j: int|
            #[trigger] has_seg(db, i, j) && i != at ==> end.segs.contains_key(seg_number(db, i, j))
                && end.segs[seg_number(db, i, j)] == disk.segs[seg_number(db, i, j)],
        end.manifest.entries == entries_without(disk.manifest.entries, gone),
    ensures
        numbered(after),
        forall|i: int|
            0 <= i < after.collections@.len() ==> is_stored(end, #[trigger] after.collections@[i]),
{
    let colls = db.collections@;
    lemma_coll_from(colls, gone, 0);
    assert forall|i: int, j: int| #[trigger] has_seg(after, i, j) implies has_seg(
        db,
        old_place(i, at, colls.len()),
        j,
    ) && seg_number(after, i, j) == seg_number(db, old_place(i, at, colls.len()), j) by {}
    assert(numbered(after)) by {
        assert forall|i: int, j: int, x: int, y: int| #[trigger]
            has_seg(after, i, j) && #[trigger] has_seg(after, x, y) && seg_number(after, i, j)
                == seg_number(after, x, y) implies i == x && j == y by {
            assert(has_seg(db, old_place(i, at, colls.len()), j) && has_seg(
                db,
                old_place(x, at, colls.len()),
                y,
            ));
        }
    }
    assert forall|i: int| 0 <= i < after.collections@.len() implies is_stored(
        end,
        #[trigger] after.collections@[i],
    ) by {
        let o = old_place(i, at, colls.len());
        let c = colls[o];
        assert(after.collections@[i] == c);
        assert(is_stored(disk, c));
        assert(c.name@ != gone) by {
            lemma_coll_at(colls, o);
        }
        lemma_entries_without(disk.manifest.entries, gone, c.name@);
        assert forall|j: int| 0 <= j < c.view.immutables@.len() implies end.segs.contains_key(
            (#[trigger] c.view.immutables@[j]).number(),
        ) && on_disk(end.segs[c.view.immutables@[j].number()], c.view.immutables@[j]) by {
            assert(has_seg(db, o, j));
            assert(seg_number(db, o, j) == c.view.immutables@[j].number());
        }
    }
}

/// A write that is in the log survives a crash, whichever of its steps were performed by
/// then: opening the database succeeds, and gives back what the write led to. Once all its
/// steps were performed, all that the database keeps is stored again.
pub proof fn law_write_survives<N, S>(
    db: Database,
    after: Database,
    disk: Disk,
    next_lsn: u64,
    op: Op,
    rec: RecordView,
    kernel: Kernel<N, S>,
    a: Applied,
    k: int,
) where N: Fn(&[u32]) -> u32, S: Fn(Metric, &[u32], u32, &[u32], u32) -> u32
    requires
        durable(db, disk, next_lsn),
        rec.lsn == next_lsn,
        settled_op(rec.op) == settled_op(op@),
        db.applies(after, op, kernel, a),
        after.valid(),
        db.rest_same(after),
        db.follows(after, op@),
        0 <= k <= a.steps@.len(),
    ensures
        gives_back(disk.appended(rec).performed_all(a.steps@.take(k)), after),
        k == a.steps@.len() && next_lsn < u64::MAX ==> durable(
            after,
            disk.appended(rec).performed_all(a.steps@),
            (next_lsn + 1) as u64,
        ),
{
    let name = subject(op@);
    let at = coll_at(db.collections@, name);
    let steps = a.steps@;
    lemma_kept_none(db.collections@, name);
    lemma_coll_from(db.collections@, name, 0);
    match op {
        Op::CreateCollection { .. } => {
            lemma_making_survives(db, after, disk, next_lsn, op@, rec, a, k);
        },
        Op::DropCollection { .. } => {
            lemma_dropping_survives(db, after, disk, next_lsn, op@, rec, a, k);
        },
        Op::Upsert { points, .. } => {
            let before = db.collections@[at];
            let new = after.collections@[at];
            if all_fit(point_views(points@), before.config.dim as nat) {
                let touched = choose|touched: Seq<bool>| #[trigger]
                    before.view.upserts(new.view, points@, kernel, touched) && all_marks(
                        new.view.immutables@,
                        places(touched),
                        steps,
                    );
                let fresh = new_ids(before.view.mutable.index(), points@);
                let gone = Seq::new(touched.len(), |x: int| fresh);
                assert forall|x: int, id: IdView|
                    0 <= x < touched.len() && (#[trigger] gone[x].contains(id)) implies decides(
                    op@,
                    before.config.dim as nat,
                    id,
                ) by {
                    let i = choose|i: int|
                        0 <= i < points@.len() && (#[trigger] points@[i]).id@ == id;
                    assert(point_views(points@)[i].0 == id);
                }
                assert forall|x: int| 0 <= x < touched.len() implies (
                #[trigger] before.view.immutables@[x]).without(new.view.immutables@[x], gone[x]) by {}
                assert(reworked(db, after, at));
                lemma_marking_survives(
                    db,
                    after,
                    disk,
                    next_lsn,
                    at,
                    op@,
                    rec,
                    gone,
                    touched,
                    steps,
                    k,
                );
            } else {
                assert(steps =~= Seq::<Step>::empty());
                assert(steps.take(k) =~= Seq::<Step>::empty());
                lemma_logged(db, after, disk, next_lsn, op@, rec);
                if next_lsn < u64::MAX {
                    lemma_idle(db, after, disk, next_lsn, op@, rec);
                }
            }
        },
        Op::Delete { ids, .. } => {
            let before = db.collections@[at];
            let new = after.collections@[at];
            let touched = choose|touched: Seq<bool>| #[trigger]
                before.view.deletes(new.view, ids@, touched) && all_marks(
                    new.view.immutables@,
                    places(touched),
                    steps,
                );
            let gone = Seq::new(
                touched.len(),
                |x: int| gone_from(before.view.mutable.live(), before.view.immutables@, ids@, x),
            );
            assert forall|x: int, id: IdView|
                0 <= x < touched.len() && (#[trigger] gone[x].contains(id)) implies decides(
                op@,
                before.config.dim as nat,
                id,
            ) by {
                let i = choose|i: int| 0 <= i < ids@.len() && (#[trigger] ids@[i])@ == id;
                assert(id_views(ids@)[i] == id);
            }
            assert forall|x: int| 0 <= x < touched.len() implies (
            #[trigger] before.view.immutables@[x]).without(new.view.immutables@[x], gone[x]) by {}
            assert(reworked(db, after, at)) by {
                assert forall|x: int| 0 <= x < before.view.immutables@.len() implies (
                #[trigger] new.view.immutables@[x]).number()
                    == before.view.immutables@[x].number() by {
                    assert(before.view.immutables@[x].without(new.view.immutables@[x], gone[x]));
                }
            }
            lemma_marking_survives(
                db,
                after,
                disk,
                next_lsn,
                at,
                op@,
                rec,
                gone,
                touched,
                steps,
                k,
            );
        },
        Op::SetPayload { ids, payload, .. } => {
            lemma_paid(db, after, disk, next_lsn, at, ids@, Some(payload@), op@, rec, a, k);
        },
        Op::ClearPayload { ids, .. } => {
            lemma_paid(db, after, disk, next_lsn, at, ids@, None, op@, rec, a, k);
        },
    }
}

/// Giving points a payload survives.
proof fn lemma_paid(
    db: Database,
    after: Database,
    disk: Disk,
    next_lsn: u64,
    at: int,
    ids: Seq<ExternalId>,
    payload: Option<JsonView>,
    op: OpView,
    rec: RecordView,
    a: Applied,
    k: int,
)
    requires
        durable(db, disk, next_lsn),
        rec.lsn == next_lsn,
        settled_op(rec.op) == settled_op(op),
        op matches OpView::Pay { name, ids: list, payload: p } && list == id_views(ids) && p
            == payload,
        0 <= at < db.collections@.len(),
        subject(op) == db.collections@[at].name@,
        db.pays_in(after, at, ids, payload, a),
        after.valid(),
        db.rest_same(after),
        db.follows(after, op),
        0 <= k <= a.steps@.len(),
    ensures
        gives_back(disk.appended(rec).performed_all(a.steps@.take(k)), after),
        k == a.steps@.len() && next_lsn < u64::MAX ==> durable(
            after,
            disk.appended(rec).performed_all(a.steps@),
            (next_lsn + 1) as u64,
        ),
{
    let steps = a.steps@;
    let before = db.collections@[at];
    let new = after.collections@[at];
    let touched = choose|touched: Seq<bool>| #[trigger]
        before.view.pays(new.view, ids, payload, touched) && all_overlays(
            new.view.immutables@,
            places(touched),
            steps,
        );
    let laid = Seq::new(
        touched.len(),
        |x: int| laid_in(before.view.mutable.live(), before.view.immutables@, ids, x),
    );
    assert forall|x: int, id: IdView|
        0 <= x < touched.len() && (#[trigger] laid[x].contains(id)) implies decides(
        op,
        before.config.dim as nat,
        id,
    ) && before.view.immutables@[x].live().contains_key(id) by {
        assert(listed(ids, id));
        let i = choose|i: int| 0 <= i < ids.len() && (#[trigger] ids[i])@ == id;
        assert(id_views(ids)[i] == id);
    }
    assert forall|x: int| 0 <= x < touched.len() implies (
    #[trigger] before.view.immutables@[x]).laid(new.view.immutables@[x], laid[x], payload) by {}
    assert(reworked(db, after, at)) by {
        assert forall|x: int| 0 <= x < before.view.immutables@.len() implies (
        #[trigger] new.view.immutables@[x]).number() == before.view.immutables@[x].number() by {
            assert(before.view.immutables@[x].laid(new.view.immutables@[x], laid[x], payload));
        }
    }
    lemma_paying_survives(
        db,
        after,
        disk,
        next_lsn,
        at,
        op,
        rec,
        laid,
        payload,
        touched,
        steps,
        k,
    );
}

/// Where a collection was before another one was removed.
spec fn old_place(i: int, at: int, n: nat) -> int {
    if at < n && i >= at {
        i + 1
    } else {
        i
    }
}

} // verus!
