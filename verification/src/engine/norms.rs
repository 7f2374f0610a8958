//! That every row is kept with the norm of its vector, whatever is done to a database.

use vstd::prelude::*;

use crate::engine::apply::Applied;
use crate::engine::database::{coll_at, lemma_coll_from, Database, Step};
use crate::engine::disk::{on_disk, Disk, StoredSegment};
use crate::engine::durable::{has_num, lemma_entry_stored, stored};
use crate::engine::merge::{live_rows, no_rows, renormed};
use crate::engine::open::{comes_from, last_named, lemma_last_named, opened_from};
use crate::engine::outcome::{all_fit, subject};
use crate::engine::plan::{flushed_to, lemma_stores_made, FlushPlan};
use crate::engine::promises::{all_normed, normed};
use crate::engine::recover::{rebuilds, rebuilds_one, rebuilds_until};
use crate::engine::renew::{numbers, RenewPlan};
use crate::engine::size::lemma_flushes;
use crate::engine::track::{compacted_as, finished, flushed_as, rebuilt};
use crate::engine::view::CollView;
use crate::engine::write::point_rows;
use crate::error::Error;
use crate::id::{ExternalId, IdView};
use crate::json::JsonView;
use crate::kernel::{Kernel, Metric};
use crate::segment::immutable::{covered, settled_rows, ImmutableSegment};
use crate::segment::mutable::MutableSegment;
use crate::segment::{Row, Table};
use crate::wal::{point_views, Op};

verus! {

/// Whether all rows of a database are kept with the norms of their vectors.
pub open spec fn keeps_norms<N, S>(db: Database, kernel: Kernel<N, S>) -> bool where
    N: Fn(&[u32]) -> u32,
    S: Fn(Metric, &[u32], u32, &[u32], u32) -> u32,
 {
    forall|i: int|
        0 <= i < db.collections@.len() ==> all_normed((#[trigger] db.collections@[i]).view, kernel)
}

/// Whether identifiers lead to rows.
spec fn leads(t: Table) -> bool {
    forall|id: IdView| #[trigger] t.index.contains_key(id) ==> t.index[id] < t.rows.len()
}

/// Rows with the norms of their vectors leave such rows where they are written.
proof fn lemma_put_normed<N, S>(t: Table, rows: Seq<Row>, kernel: Kernel<N, S>) where
    N: Fn(&[u32]) -> u32,
    S: Fn(Metric, &[u32], u32, &[u32], u32) -> u32,

    requires
        leads(t),
        normed(t.rows, kernel),
        normed(rows, kernel),
    ensures
        t.put_all(rows).rows.len() <= u32::MAX ==> leads(t.put_all(rows)) && normed(
            t.put_all(rows).rows,
            kernel,
        ),
    decreases rows.len(),
{
    if rows.len() > 0 {
        let rest = rows.drop_last();
        let row = rows.last();
        let r = t.put_all(rest);
        assert forall|i: int| 0 <= i < rest.len() implies (#[trigger] rest[i]).norm
            == kernel.norm_of(rest[i].vector) by {
            assert(rest[i] == rows[i]);
        }
        lemma_put_normed(t, rest, kernel);
        let out = r.put(row);
        assert(rows[rows.len() - 1] == row);
        assert(out == t.put_all(rows));
        if out.rows.len() <= u32::MAX {
            if r.index.contains_key(row.id) {
                assert(out.rows =~= r.rows.update(r.index[row.id] as int, row));
            }
            assert forall|i: int| 0 <= i < out.rows.len() implies (#[trigger] out.rows[i]).norm
                == kernel.norm_of(out.rows[i].vector) by {
                if i < r.rows.len() && !(r.index.contains_key(row.id) && r.index[row.id] == i) {
                    assert(out.rows[i] == r.rows[i]);
                }
            }
        }
    }
}

/// The rows of a segment that is made of others have the norms of theirs.
proof fn lemma_made_normed<N, S>(
    seg: ImmutableSegment,
    m: MutableSegment,
    kernel: Kernel<N, S>,
) where N: Fn(&[u32]) -> u32, S: Fn(Metric, &[u32], u32, &[u32], u32) -> u32
    requires
        normed(m.rows(), kernel),
        seg.rows() == settled_rows(m.rows()),
    ensures
        normed(seg.rows(), kernel),
{
    assert forall|i: int| 0 <= i < seg.rows().len() implies (#[trigger] seg.rows()[i]).norm
        == kernel.norm_of(seg.rows()[i].vector) by {
        assert(m.rows()[i].norm == kernel.norm_of(m.rows()[i].vector));
    }
}

/// Rows that are collected for a new segment get the norms of their vectors.
proof fn lemma_renormed<N, S>(m: MutableSegment, rows: Seq<Row>, kernel: Kernel<N, S>) where
    N: Fn(&[u32]) -> u32,
    S: Fn(Metric, &[u32], u32, &[u32], u32) -> u32,

    requires
        m.valid(),
        m.table() == no_rows().put_all(renormed(rows, kernel)),
    ensures
        normed(m.rows(), kernel),
{
    m.lemma_valid();
    lemma_put_normed(no_rows(), renormed(rows, kernel), kernel);
    assert(m.rows() == m.table().rows);
}

/// Segments over whose points payloads were laid, or some of whose points were deleted, have the
/// same norms.
proof fn lemma_same_store<N, S>(a: ImmutableSegment, b: ImmutableSegment, kernel: Kernel<N, S>) where
    N: Fn(&[u32]) -> u32,
    S: Fn(Metric, &[u32], u32, &[u32], u32) -> u32,

    requires
        a.store().rows() == b.store().rows(),
        normed(a.rows(), kernel),
    ensures
        normed(b.rows(), kernel),
{
    assert forall|i: int| 0 <= i < b.rows().len() implies (#[trigger] b.rows()[i]).norm
        == kernel.norm_of(b.rows()[i].vector) by {
        assert(a.rows()[i] == covered(a.store().rows()[i], a.over()));
        assert(b.rows()[i] == covered(b.store().rows()[i], b.over()));
    }
}

/// Writing keeps every row with the norm of its vector.
pub proof fn law_writing_keeps_norms<N, S>(
    db: Database,
    after: Database,
    op: Op,
    kernel: Kernel<N, S>,
    a: Applied,
) where N: Fn(&[u32]) -> u32, S: Fn(Metric, &[u32], u32, &[u32], u32) -> u32
    requires
        db.valid(),
        after.valid(),
        keeps_norms(db, kernel),
        db.applies(after, op, kernel, a),
    ensures
        keeps_norms(after, kernel),
{
    let colls = db.collections@;
    let now = after.collections@;
    let at = coll_at(colls, subject(op@));
    lemma_coll_from(colls, subject(op@), 0);
    assert forall|i: int| 0 <= i < now.len() implies all_normed(
        (#[trigger] now[i]).view,
        kernel,
    ) by {
        match op {
            Op::CreateCollection { .. } => {
                if i < colls.len() {
                    assert(now[i] == colls[i]) by {
                        if at == colls.len() {
                            assert(now.drop_last()[i] == now[i]);
                        }
                    }
                }
            },
            Op::DropCollection { .. } => {
                if i < at {
                    assert(now[i] == colls[i]);
                } else if at < colls.len() {
                    assert(now[i] == colls[i + 1]);
                }
            },
            Op::Upsert { points, .. } => {
                let before = colls[at];
                let new = now[at];
                if i != at || !all_fit(point_views(points@), before.config.dim as nat) {
                    assert(now[i] == colls[i]);
                } else {
                    let touched = choose|touched: Seq<bool>| #[trigger]
                        before.view.upserts(new.view, points@, kernel, touched);
                    assert(before.valid() && new.valid());
                    before.view.mutable.lemma_valid();
                    new.view.mutable.lemma_valid();
                    lemma_put_normed(before.view.mutable.table(), point_rows(points@, kernel), kernel);
                    assert(new.view.mutable.rows() == new.view.mutable.table().rows);
                    assert forall|j: int| 0 <= j < new.view.immutables@.len() implies normed(
                        (#[trigger] new.view.immutables@[j]).rows(),
                        kernel,
                    ) by {
                        lemma_same_store(
                            before.view.immutables@[j],
                            new.view.immutables@[j],
                            kernel,
                        );
                    }
                }
            },
            Op::Delete { ids, .. } => {
                let before = colls[at];
                let new = now[at];
                if i != at {
                    assert(now[i] == colls[i]);
                } else {
                    let touched = choose|touched: Seq<bool>| #[trigger]
                        before.view.deletes(new.view, ids@, touched);
                    assert forall|j: int| 0 <= j < new.view.immutables@.len() implies normed(
                        (#[trigger] new.view.immutables@[j]).rows(),
                        kernel,
                    ) by {
                        lemma_same_store(
                            before.view.immutables@[j],
                            new.view.immutables@[j],
                            kernel,
                        );
                    }
                }
            },
            Op::SetPayload { ids, payload, .. } => {
                if i != at {
                    assert(now[i] == colls[i]);
                } else {
                    let touched = choose|touched: Seq<bool>| #[trigger]
                        colls[at].view.pays(now[at].view, ids@, Some(payload@), touched);
                    lemma_pays_normed(
                        colls[at].view,
                        now[at].view,
                        ids@,
                        Some(payload@),
                        touched,
                        kernel,
                    );
                }
            },
            Op::ClearPayload { ids, .. } => {
                if i != at {
                    assert(now[i] == colls[i]);
                } else {
                    let touched = choose|touched: Seq<bool>| #[trigger]
                        colls[at].view.pays(now[at].view, ids@, None, touched);
                    lemma_pays_normed(colls[at].view, now[at].view, ids@, None, touched, kernel);
                }
            },
        }
    }
}

proof fn lemma_pays_normed<N, S>(
    before: CollView,
    after: CollView,
    ids: Seq<ExternalId>,
    payload: Option<JsonView>,
    touched: Seq<bool>,
    kernel: Kernel<N, S>,
) where N: Fn(&[u32]) -> u32, S: Fn(Metric, &[u32], u32, &[u32], u32) -> u32
    requires
        all_normed(before, kernel),
        before.pays(after, ids, payload, touched),
    ensures
        all_normed(after, kernel),
{
    assert forall|i: int| 0 <= i < after.mutable.rows().len() implies (
    #[trigger] after.mutable.rows()[i]).norm == kernel.norm_of(after.mutable.rows()[i].vector) by {
        assert(before.mutable.rows()[i].norm == kernel.norm_of(before.mutable.rows()[i].vector));
    }
    assert forall|j: int| 0 <= j < after.immutables@.len() implies normed(
        (#[trigger] after.immutables@[j]).rows(),
        kernel,
    ) by {
        lemma_same_store(before.immutables@[j], after.immutables@[j], kernel);
    }
}

/// A flush keeps every row with the norm of its vector.
pub proof fn law_flushing_keeps_norms<N, S>(
    before: Database,
    after: Database,
    next_lsn: u64,
    kernel: Kernel<N, S>,
) where N: Fn(&[u32]) -> u32, S: Fn(Metric, &[u32], u32, &[u32], u32) -> u32
    requires
        before.collections@.len() <= usize::MAX,
        keeps_norms(before, kernel),
        flushed_as(before, after, next_lsn, kernel),
    ensures
        keeps_norms(after, kernel),
{
    let colls = before.collections@;
    let now = after.collections@;
    let (plan, mid) = choose|plan: FlushPlan, mid: Database| #[trigger]
        before.flush_planned(plan, next_lsn, kernel) && before.only_numbers(mid)
            && mid.next_seg_id == before.next_seg_id + plan.at@.len()
            && #[trigger] mid.flush_committed(after, plan);
    lemma_flushes(before, plan.at@);
    assert forall|i: int| 0 <= i < now.len() implies all_normed(
        (#[trigger] now[i]).view,
        kernel,
    ) by {
        let x = i as usize;
        if plan.at@.contains(x) {
            let j = choose|j: int| 0 <= j < plan.at@.len() && plan.at@[j] == x;
            let seg = plan.segs@[j];
            lemma_stores_made(
                colls,
                plan.at@,
                before.next_seg_id,
                plan.segs@,
                plan.steps@.take(plan.steps@.len() - 2),
                kernel,
                plan.at@.len(),
                j,
            );
            assert(all_normed(colls[i].view, kernel));
            lemma_made_normed(seg, colls[i].view.mutable, kernel);
            assert(flushed_to(mid.collections@[i], now[i], seg));
            let segs = colls[i].view.immutables@;
            assert(now[i].view.immutables@ == segs.push(seg));
            assert forall|k: int| 0 <= k < now[i].view.immutables@.len() implies normed(
                (#[trigger] now[i].view.immutables@[k]).rows(),
                kernel,
            ) by {
                if k < segs.len() {
                    assert(now[i].view.immutables@[k] == segs[k]);
                }
            }
            assert(now[i].view.mutable.rows() == now[i].view.mutable.table().rows);
        } else {
            assert(now[x as int] == mid.collections@[x as int]);
            assert(all_normed(colls[i].view, kernel));
        }
    }
}

/// Compacting keeps every row with the norm of its vector.
pub proof fn law_compacting_keeps_norms<N, S>(
    before: Database,
    after: Database,
    name: Seq<char>,
    kernel: Kernel<N, S>,
) where N: Fn(&[u32]) -> u32, S: Fn(Metric, &[u32], u32, &[u32], u32) -> u32
    requires
        keeps_norms(before, kernel),
        compacted_as(before, after, name, kernel),
    ensures
        keeps_norms(after, kernel),
{
    let (plan, m, mid) = choose|plan: RenewPlan, m: MutableSegment, mid: Database|
        #![trigger before.compact_planned(name, plan, kernel, m), mid.compact_committed(after, plan)]
        before.compact_planned(name, plan, kernel, m) && before.took(mid, plan.seg)
            && mid.compact_committed(after, plan);
    let at = plan.at as int;
    let c = before.collections@[at];
    lemma_renormed(m, c.view.chronicle(), kernel);
    if let Some(s) = plan.seg {
        lemma_made_normed(s, m, kernel);
    }
    assert forall|i: int| 0 <= i < after.collections@.len() implies all_normed(
        (#[trigger] after.collections@[i]).view,
        kernel,
    ) by {
        if i != at {
            assert(after.collections@[i] == before.collections@[i]);
        } else {
            let now = after.collections@[i].view;
            assert(now.mutable.rows() == now.mutable.table().rows);
        }
    }
}

/// Rebuilding segments keeps every row with the norm of its vector.
pub proof fn law_rebuilding_keeps_norms<N, S>(
    start: Database,
    after: Database,
    name: Seq<char>,
    list: Seq<usize>,
    kernel: Kernel<N, S>,
    steps: Seq<Step>,
) where N: Fn(&[u32]) -> u32, S: Fn(Metric, &[u32], u32, &[u32], u32) -> u32
    requires
        keeps_norms(start, kernel),
        rebuilds(start, after, name, list, kernel, steps),
    ensures
        keeps_norms(after, kernel),
    decreases list.len(),
{
    if list.len() > 0 {
        let (db, n) = choose|db: Database, n: int|
            0 <= n <= steps.len() && #[trigger] rebuilds_one(
                db,
                after,
                name,
                list.last(),
                kernel,
                steps.skip(n),
            ) && rebuilds(start, db, name, list.drop_last(), kernel, steps.take(n));
        law_rebuilding_keeps_norms(start, db, name, list.drop_last(), kernel, steps.take(n));
        let at = coll_at(db.collections@, name);
        let si = list.last();
        if !(at < db.collections@.len() && si >= db.collections@[at].view.immutables@.len()) {
            let (plan, m, mid) = choose|plan: RenewPlan, m: MutableSegment, mid: Database|
                #![trigger db.rebuild_planned(name, si, plan, kernel, m), db.took(mid, plan.seg)]
                db.rebuild_planned(name, si, plan, kernel, m) && db.took(mid, plan.seg)
                    && mid.rebuild_committed(after, si, plan) && steps.skip(n) == plan.steps@;
            let c = db.collections@[at];
            let seg = c.view.immutables@[si as int];
            lemma_renormed(m, live_rows(seg.rows(), seg.dead()), kernel);
            if let Some(s) = plan.seg {
                lemma_made_normed(s, m, kernel);
            }
            assert forall|i: int| 0 <= i < after.collections@.len() implies all_normed(
                (#[trigger] after.collections@[i]).view,
                kernel,
            ) by {
                assert(all_normed(db.collections@[i].view, kernel));
                if i != at {
                    assert(after.collections@[i] == db.collections@[i]);
                } else {
                    let segs = c.view.immutables@;
                    let now = after.collections@[i].view;
                    assert forall|k: int| 0 <= k < now.immutables@.len() implies normed(
                        (#[trigger] now.immutables@[k]).rows(),
                        kernel,
                    ) by {
                        if plan.seg is None {
                            if k < si {
                                assert(now.immutables@[k] == segs[k]);
                            } else {
                                assert(now.immutables@[k] == segs[k + 1]);
                            }
                        } else if k != si {
                            assert(now.immutables@[k] == segs[k]);
                        }
                    }
                }
            }
        }
    }
}

/// What follows from a write keeps every row with the norm of its vector.
pub proof fn law_finishing_keeps_norms<N, S>(
    mid: Database,
    after: Database,
    name: Seq<char>,
    a: Applied,
    next_lsn: u64,
    kernel: Kernel<N, S>,
) where N: Fn(&[u32]) -> u32, S: Fn(Metric, &[u32], u32, &[u32], u32) -> u32
    requires
        keeps_norms(mid, kernel),
        finished(mid, after, name, a, next_lsn, kernel),
    ensures
        keeps_norms(after, kernel),
{
    let d = choose|d: Database| #[trigger]
        rebuilt(mid, d, name, a.rebuild@, kernel) && if a.need_flush {
            flushed_as(d, after, next_lsn, kernel)
        } else {
            after == d
        };
    let steps = choose|steps: Seq<Step>| #[trigger]
        rebuilds(mid, d, name, a.rebuild@, kernel, steps);
    law_rebuilding_keeps_norms(mid, d, name, a.rebuild@, kernel, steps);
    if a.need_flush {
        assert(d.collections.len() <= usize::MAX);
        law_flushing_keeps_norms(d, after, next_lsn, kernel);
    }
}

/// A segment that is opened again has the rows that it had, with their norms.
pub proof fn law_opening_keeps_norms<N, S>(
    v: StoredSegment,
    seg: ImmutableSegment,
    again: ImmutableSegment,
    kernel: Kernel<N, S>,
) where N: Fn(&[u32]) -> u32, S: Fn(Metric, &[u32], u32, &[u32], u32) -> u32
    requires
        on_disk(v, seg),
        on_disk(v, again),
        normed(seg.rows(), kernel),
    ensures
        normed(again.rows(), kernel),
{
    lemma_same_store(seg, again, kernel);
}

/// Whether the segments of the manifest are stored with the norms of their vectors.
pub open spec fn stores_norms<N, S>(disk: Disk, kernel: Kernel<N, S>) -> bool where
    N: Fn(&[u32]) -> u32,
    S: Fn(Metric, &[u32], u32, &[u32], u32) -> u32,
 {
    forall|i: int, j: int| #[trigger]
        has_num(disk.manifest.entries, i, j) ==> normed(
            disk.segs[disk.manifest.entries[i].segments[j]].rows,
            kernel,
        )
}

/// A segment that is stored as it is in memory has the same norms there.
proof fn lemma_stored_normed<N, S>(v: StoredSegment, seg: ImmutableSegment, kernel: Kernel<N, S>) where
    N: Fn(&[u32]) -> u32,
    S: Fn(Metric, &[u32], u32, &[u32], u32) -> u32,

    requires
        on_disk(v, seg),
    ensures
        normed(v.rows, kernel) <==> normed(seg.rows(), kernel),
{
    if normed(v.rows, kernel) {
        assert forall|i: int| 0 <= i < seg.rows().len() implies (#[trigger] seg.rows()[i]).norm
            == kernel.norm_of(seg.rows()[i].vector) by {
            assert(seg.rows()[i] == covered(v.rows[i], seg.over()));
        }
    }
    if normed(seg.rows(), kernel) {
        assert forall|i: int| 0 <= i < v.rows.len() implies (#[trigger] v.rows[i]).norm
            == kernel.norm_of(v.rows[i].vector) by {
            assert(seg.rows()[i] == covered(v.rows[i], seg.over()));
        }
    }
}

/// Where a database keeps the norms of all vectors, so do the segments that it has stored.
pub proof fn law_stored_segments_keep_norms<N, S>(db: Database, disk: Disk, kernel: Kernel<N, S>) where
    N: Fn(&[u32]) -> u32,
    S: Fn(Metric, &[u32], u32, &[u32], u32) -> u32,

    requires
        stored(db, disk),
        keeps_norms(db, kernel),
    ensures
        stores_norms(disk, kernel),
{
    let entries = disk.manifest.entries;
    assert forall|i: int, j: int| #[trigger] has_num(entries, i, j) implies normed(
        disk.segs[entries[i].segments[j]].rows,
        kernel,
    ) by {
        lemma_entry_stored(db, disk, i);
        let a = coll_at(db.collections@, entries[i].name);
        let c = db.collections@[a];
        let seg = c.view.immutables@[j];
        assert(all_normed(c.view, kernel));
        assert(seg.number() == entries[i].segments[j]);
        assert(on_disk(disk.segs[seg.number()], seg));
        lemma_stored_normed(disk.segs[seg.number()], seg, kernel);
    }
}

/// A database that is made of segments that are stored with their norms keeps these.
pub proof fn lemma_assembled_normed<N, S>(
    db: Database,
    disk: Disk,
    opened: Seq<Seq<ImmutableSegment>>,
    kernel: Kernel<N, S>,
) where N: Fn(&[u32]) -> u32, S: Fn(Metric, &[u32], u32, &[u32], u32) -> u32
    requires
        stores_norms(disk, kernel),
        opened_from(disk, opened),
        forall|i: int|
            0 <= i < db.collections@.len() ==> comes_from(
                #[trigger] db.collections@[i],
                disk.manifest.entries,
                opened,
            ),
    ensures
        keeps_norms(db, kernel),
{
    let entries = disk.manifest.entries;
    assert forall|i: int| 0 <= i < db.collections@.len() implies all_normed(
        (#[trigger] db.collections@[i]).view,
        kernel,
    ) by {
        let c = db.collections@[i];
        assert(comes_from(c, entries, opened));
        let k = last_named(entries, c.name@);
        lemma_last_named(entries, c.name@);
        assert forall|j: int| 0 <= j < c.view.immutables@.len() implies normed(
            (#[trigger] c.view.immutables@[j]).rows(),
            kernel,
        ) by {
            let seg = opened[k][j];
            assert(numbers(opened[k]) == entries[k].segments);
            assert(numbers(opened[k])[j] == seg.number());
            assert(has_num(entries, k, j));
            lemma_stored_normed(disk.segs[seg.number()], seg, kernel);
        }
    }
}

/// Rebuilding segments until one cannot be rebuilt keeps every row with the norm of its vector.
pub proof fn lemma_until_keeps_norms<N, S>(
    start: Database,
    after: Database,
    name: Seq<char>,
    list: Seq<usize>,
    kernel: Kernel<N, S>,
    steps: Seq<Step>,
    e: Error,
) where N: Fn(&[u32]) -> u32, S: Fn(Metric, &[u32], u32, &[u32], u32) -> u32
    requires
        keeps_norms(start, kernel),
        rebuilds_until(start, after, name, list, kernel, steps, e),
    ensures
        keeps_norms(after, kernel),
{
    let (n, db) = choose|n: int, db: Database|
        0 <= n < list.len() && #[trigger] rebuilds(start, db, name, list.take(n), kernel, steps)
            && db.only_numbers(after) && db.turned_down(name, list[n], e);
    law_rebuilding_keeps_norms(start, db, name, list.take(n), kernel, steps);
    assert forall|i: int| 0 <= i < after.collections@.len() implies all_normed(
        (#[trigger] after.collections@[i]).view,
        kernel,
    ) by {
        assert(after.collections@[i] == db.collections@[i]);
    }
}

} // verus!
