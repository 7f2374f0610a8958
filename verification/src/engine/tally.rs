//! What an operation is about, in numbers.

use vstd::prelude::*;

use crate::engine::apply::Applied;
use crate::engine::database::{coll_at, lemma_coll_from, Database};
use crate::engine::outcome::{settled_kept, subject, Kept};
use crate::engine::plan::buildable;
use crate::engine::read::rows_in;
use crate::engine::size::{
    enlisted, has_space, lemma_buildable_less, lemma_put_grows, lemma_space_less, spacious,
};
use crate::engine::view::{lemma_layered, CollView};
use crate::engine::write::{found, id_set, point_rows};
use crate::id::{ExternalId, IdView};
use crate::kernel::{Kernel, Metric};
use crate::manifest::{entry_at, lemma_entries_without, lemma_entry_from};
use crate::segment::immutable::{settled_live, ImmutableSegment};
use crate::wal::{id_views, Op, OpView, RecordView};

verus! {

/// How many points an operation is about: those that it deletes, each once, or the items of its
/// list that have a point to be given a payload.
pub open spec fn counted(k: Option<Kept>, op: OpView) -> nat {
    match k {
        None => 0,
        Some(k) => match op {
            OpView::Delete { ids, .. } => k.points.dom().intersect(ids.to_set()).len(),
            OpView::Pay { ids, .. } => ids.filter(|id: IdView| k.points.contains_key(id)).len(),
            _ => 0,
        },
    }
}

/// How many points an operation may add to a collection.
pub open spec fn points_in(op: OpView) -> nat {
    match op {
        OpView::Upsert { points, .. } => points.len(),
        _ => 0,
    }
}

/// Whether a collection that an operation makes could be given an index of some rows.
pub open spec fn can_hold(op: OpView, rows: nat) -> bool {
    op matches OpView::Create { config, .. } ==> rows <= u32::MAX && buildable(config, rows)
}

/// How many points the records from place `i` on may add.
pub open spec fn points_from(records: Seq<RecordView>, i: int) -> nat
    decreases records.len() - i,
{
    if i < 0 || i >= records.len() {
        0
    } else {
        points_in(records[i].op) + points_from(records, i + 1)
    }
}

/// Whether all collections that records make could be given an index of some rows.
pub open spec fn all_hold(records: Seq<RecordView>, rows: nat) -> bool {
    forall|i: int| 0 <= i < records.len() ==> can_hold((#[trigger] records[i]).op, rows)
}

/// Whether no collection has more segments than that.
pub open spec fn segs_within(db: Database, n: nat) -> bool {
    forall|i: int|
        0 <= i < db.collections@.len() ==> (
        #[trigger] db.collections@[i]).view.immutables@.len() <= n
}

/// The first records add no fewer points than those behind them.
pub proof fn lemma_points_from(records: Seq<RecordView>, i: int)
    requires
        0 <= i <= records.len(),
    ensures
        points_from(records, i) <= points_from(records, 0),
    decreases i,
{
    if i > 0 {
        lemma_points_from(records, i - 1);
    }
}

/// A collection that could be given an index of some rows could be of fewer.
pub proof fn lemma_holds_less(op: OpView, more: nat, less: nat)
    requires
        can_hold(op, more),
        less <= more,
    ensures
        can_hold(op, less),
{
    if let OpView::Create { config, .. } = op {
        lemma_buildable_less(config, less, more);
    }
}

/// Applying an operation adds no segments, and leaves every collection in the manifest.
pub proof fn lemma_enlisted_after<N, S>(
    db: Database,
    after: Database,
    op: Op,
    kernel: Kernel<N, S>,
    a: Applied,
    segs: nat,
) where N: Fn(&[u32]) -> u32, S: Fn(Metric, &[u32], u32, &[u32], u32) -> u32
    requires
        db.applies(after, op, kernel, a),
        db.valid(),
        enlisted(db),
        segs_within(db, segs),
    ensures
        enlisted(after),
        segs_within(after, segs),
{
    let name = subject(op@);
    let at = coll_at(db.collections@, name);
    let entries = db.manifest@.entries;
    let now = after.manifest@.entries;
    lemma_coll_from(db.collections@, name, 0);
    assert forall|i: int| 0 <= i < after.collections@.len() implies entry_at(
        now,
        (#[trigger] after.collections@[i]).name@,
    ) < now.len() && after.collections@[i].view.immutables@.len() <= segs by {
        let c = after.collections@[i];
        match op {
            Op::CreateCollection { .. } => {
                if at == db.collections@.len() {
                    lemma_entry_from(now, c.name@, 0);
                    if i < db.collections@.len() {
                        assert(after.collections@.drop_last()[i] == db.collections@[i]);
                        assert(entry_at(entries, db.collections@[i].name@) < entries.len());
                        lemma_entry_from(entries, c.name@, 0);
                        assert(now[entry_at(entries, c.name@)].name == c.name@);
                    } else {
                        assert(now[entries.len() as int].name == c.name@);
                    }
                } else {
                    assert(c == db.collections@[i]);
                }
            },
            Op::DropCollection { .. } => {
                let k = if at < db.collections@.len() && i >= at {
                    i + 1
                } else {
                    i
                };
                assert(c == db.collections@[k]);
                assert(entry_at(entries, db.collections@[k].name@) < entries.len());
                lemma_entries_without(entries, name, c.name@);
                if c.name@ == name {
                    assert(k >= at);
                    if k > at {
                        assert(db.collections@[at].name@ != db.collections@[k].name@);
                    }
                }
            },
            Op::Upsert { points, .. } => {
                assert(db.collections@[i].view.immutables@.len() <= segs);
                assert(entry_at(entries, db.collections@[i].name@) < entries.len());
            },
            Op::Delete { ids, .. } => {
                assert(db.collections@[i].view.immutables@.len() <= segs);
                assert(entry_at(entries, db.collections@[i].name@) < entries.len());
            },
            Op::SetPayload { .. } => {
                assert(db.collections@[i].view.immutables@.len() <= segs);
                assert(entry_at(entries, db.collections@[i].name@) < entries.len());
            },
            Op::ClearPayload { .. } => {
                assert(db.collections@[i].view.immutables@.len() <= segs);
                assert(entry_at(entries, db.collections@[i].name@) < entries.len());
            },
        }
    }
}

/// The items that have a point are found.
proof fn lemma_found(view: CollView, ids: Seq<ExternalId>)
    ensures
        found(view.mutable.live(), view.immutables@, ids) == id_views(ids).filter(
            |id: IdView| view.contents().contains_key(id),
        ).len(),
    decreases ids.len(),
{
    reveal(Seq::filter);
    let all = id_views(ids);
    if ids.len() > 0 {
        lemma_found(view, ids.drop_last());
        assert(all.drop_last() =~= id_views(ids.drop_last()));
        assert(all.last() == ids.last()@);
        lemma_layered(view.immutables@, ids.last()@);
    }
}

/// The numbers that applying an operation gives are what it is about.
pub proof fn lemma_counted<N, S>(
    db: Database,
    after: Database,
    op: Op,
    kernel: Kernel<N, S>,
    a: Applied,
) where N: Fn(&[u32]) -> u32, S: Fn(Metric, &[u32], u32, &[u32], u32) -> u32
    requires
        db.applies(after, op, kernel, a),
    ensures
        a.count == counted(db.kept(subject(op@)), op@),
{
    let name = subject(op@);
    let at = coll_at(db.collections@, name);
    lemma_coll_from(db.collections@, name, 0);
    match op {
        Op::Delete { ids, .. } => {
            assert(id_set(ids@) =~= id_views(ids@).to_set()) by {
                assert forall|id: IdView| #[trigger] id_set(ids@).contains(id) implies id_views(
                    ids@,
                ).contains(id) by {
                    let i = choose|i: int| 0 <= i < ids@.len() && (#[trigger] ids@[i])@ == id;
                    assert(id_views(ids@)[i] == id);
                }
                assert forall|id: IdView| #[trigger] id_views(ids@).contains(id) implies id_set(
                    ids@,
                ).contains(id) by {
                    let i = choose|i: int| 0 <= i < ids@.len() && id_views(ids@)[i] == id;
                    assert(ids@[i]@ == id);
                }
            }
        },
        Op::SetPayload { ids, .. } => {
            lemma_found(db.collections@[at].view, ids@);
        },
        Op::ClearPayload { ids, .. } => {
            lemma_found(db.collections@[at].view, ids@);
        },
        _ => {},
    }
}

/// What files keep of points does not change the number that an operation is about.
pub proof fn lemma_counted_same(a: Option<Kept>, b: Option<Kept>, op: OpView)
    requires
        settled_kept(a) == settled_kept(b),
    ensures
        counted(a, op) == counted(b, op),
{
    if a is Some {
        let x = a->0.points;
        let y = b->0.points;
        assert(settled_live(x) == settled_live(y));
        assert(x.dom() =~= settled_live(x).dom());
        assert(y.dom() =~= settled_live(y).dom());
        if let OpView::Pay { ids, .. } = op {
            let f = |id: IdView| x.contains_key(id);
            let g = |id: IdView| y.contains_key(id);
            assert forall|id: IdView| #[trigger] x.contains_key(id) == y.contains_key(id) by {
                assert(x.dom().contains(id) == y.dom().contains(id));
            }
            assert(f =~= g);
        }
    }
}

/// A list of places that goes down is no longer than the highest one allows.
proof fn lemma_down(list: Seq<usize>, n: int)
    requires
        forall|a: int, b: int| 0 <= a < b < list.len() ==> #[trigger] list[a] > #[trigger] list[b],
        forall|a: int| 0 <= a < list.len() ==> (#[trigger] list[a]) < n,
        n >= 0,
    ensures
        list.len() <= n,
    decreases list.len(),
{
    if list.len() > 0 {
        let rest = list.drop_first();
        assert(list[0] < n);
        assert forall|a: int, b: int| 0 <= a < b < rest.len() implies #[trigger] rest[a]
            > #[trigger] rest[b] by {
            assert(list[a + 1] > list[b + 1]);
        }
        assert forall|a: int| 0 <= a < rest.len() implies (#[trigger] rest[a]) < list[0] by {
            assert(list[0] > list[a + 1]);
        }
        lemma_down(rest, list[0] as int);
    }
}

/// No more segments are rebuilt than there are.
pub proof fn lemma_worn_few<N, S>(
    db: Database,
    after: Database,
    op: Op,
    kernel: Kernel<N, S>,
    a: Applied,
) where N: Fn(&[u32]) -> u32, S: Fn(Metric, &[u32], u32, &[u32], u32) -> u32
    requires
        db.applies(after, op, kernel, a),
    ensures
        ({
            let at = coll_at(db.collections@, subject(op@));
            a.rebuild@.len() <= (if at < db.collections@.len() {
                db.collections@[at].view.immutables@.len()
            } else {
                0
            })
        }),
{
    lemma_coll_from(db.collections@, subject(op@), 0);
    if let Op::Delete { ids, .. } = op {
        let at = coll_at(db.collections@, subject(op@));
        let before = db.collections@[at];
        let new = after.collections@[at];
        let touched = choose|touched: Seq<bool>| #[trigger]
            before.view.deletes(new.view, ids@, touched);
        lemma_down(a.rebuild@, new.view.immutables@.len() as int);
    }
}

proof fn lemma_rows_same(a: Seq<ImmutableSegment>, b: Seq<ImmutableSegment>)
    requires
        a.len() == b.len(),
        forall|i: int|
            0 <= i < a.len() ==> (#[trigger] a[i]).rows().len() == b[i].rows().len(),
    ensures
        rows_in(a) == rows_in(b),
    decreases a.len(),
{
    if a.len() > 0 {
        let x = a.drop_last();
        let y = b.drop_last();
        assert forall|i: int| 0 <= i < x.len() implies (#[trigger] x[i]).rows().len()
            == y[i].rows().len() by {
            assert(a[i].rows().len() == b[i].rows().len());
        }
        lemma_rows_same(x, y);
        assert(a[a.len() - 1].rows().len() == b[a.len() - 1].rows().len());
    }
}

/// How many rows a collection has once an operation was applied to it.
proof fn lemma_rows_after<N, S>(
    db: Database,
    after: Database,
    op: Op,
    kernel: Kernel<N, S>,
    a: Applied,
    at: int,
) where N: Fn(&[u32]) -> u32, S: Fn(Metric, &[u32], u32, &[u32], u32) -> u32
    requires
        db.applies(after, op, kernel, a),
        db.valid(),
        at == coll_at(db.collections@, subject(op@)),
        at < db.collections@.len(),
        !(op is CreateCollection),
        !(op is DropCollection),
        db.collections@[at].view.rows_total() + points_in(op@) <= u32::MAX,
    ensures
        after.collections@[at].view.rows_total() <= db.collections@[at].view.rows_total()
            + points_in(op@),
        after.collections@[at].config == db.collections@[at].config,
        after.collections@ == db.collections@.update(at, after.collections@[at]),
{
    lemma_coll_from(db.collections@, subject(op@), 0);
    let before = db.collections@[at];
    let new = after.collections@[at];
    assert(before.valid());
    before.view.mutable.lemma_valid();
    match op {
        Op::Upsert { points, .. } => {
            if after.collections == db.collections {
                assert(after.collections@ =~= db.collections@.update(at, new));
            } else {
                let touched = choose|touched: Seq<bool>| #[trigger]
                    before.view.upserts(new.view, points@, kernel, touched);
                let rows = point_rows(points@, kernel);
                let t = before.view.mutable.table();
                lemma_put_grows(t, rows);
                assert(new.view.mutable.rows() == new.view.mutable.table().rows);
                lemma_rows_same(before.view.immutables@, new.view.immutables@);
            }
        },
        Op::Delete { ids, .. } => {
            let touched = choose|touched: Seq<bool>| #[trigger]
                before.view.deletes(new.view, ids@, touched);
            lemma_rows_same(before.view.immutables@, new.view.immutables@);
        },
        Op::SetPayload { ids, payload, .. } => {
            let touched = choose|touched: Seq<bool>| #[trigger]
                before.view.pays(new.view, ids@, Some(payload@), touched);
            lemma_rows_same(before.view.immutables@, new.view.immutables@);
        },
        Op::ClearPayload { ids, .. } => {
            let touched = choose|touched: Seq<bool>| #[trigger]
                before.view.pays(new.view, ids@, None, touched);
            lemma_rows_same(before.view.immutables@, new.view.immutables@);
        },
        _ => {},
    }
}

/// There is space once an operation was applied, where there was for its points.
pub proof fn lemma_space_after<N, S>(
    db: Database,
    after: Database,
    op: Op,
    kernel: Kernel<N, S>,
    a: Applied,
    more: nat,
) where N: Fn(&[u32]) -> u32, S: Fn(Metric, &[u32], u32, &[u32], u32) -> u32
    requires
        db.applies(after, op, kernel, a),
        db.valid(),
        spacious(db, more + points_in(op@)),
        can_hold(op@, more),
    ensures
        spacious(after, more),
{
    let name = subject(op@);
    let at = coll_at(db.collections@, name);
    lemma_coll_from(db.collections@, name, 0);
    if at < db.collections@.len() && !(op is CreateCollection) && !(op is DropCollection) {
        assert(has_space(db.collections@[at], more + points_in(op@)));
        lemma_rows_after(db, after, op, kernel, a, at);
    }
    assert forall|i: int| 0 <= i < after.collections@.len() implies has_space(
        #[trigger] after.collections@[i],
        more,
    ) by {
        let new = after.collections@[i];
        match op {
            Op::CreateCollection { .. } => {
                if i < db.collections@.len() {
                    assert(has_space(db.collections@[i], more));
                    if at == db.collections@.len() {
                        assert(after.collections@.drop_last()[i] == db.collections@[i]);
                    }
                } else {
                    assert(rows_in(new.view.immutables@) == 0);
                }
            },
            Op::DropCollection { .. } => {
                if at < db.collections@.len() && i >= at {
                    assert(new == db.collections@[i + 1]);
                    assert(has_space(db.collections@[i + 1], more));
                } else {
                    assert(has_space(db.collections@[i], more));
                }
            },
            _ => {
                assert(has_space(db.collections@[i], more + points_in(op@)));
                lemma_space_less(db.collections@[i], more + points_in(op@), new, more);
            },
        }
    }
}

} // verus!
