//! How many rows collections have, and that this is few enough.

use vstd::prelude::*;

use crate::collection::{CollectionConfig, IndexKind};
use crate::engine::database::{coll_at, lemma_coll_from, Collection, Database};
use crate::engine::durable::{durable, is_stored};
use crate::engine::disk::Disk;
use crate::engine::job::{Job, Stage};
use crate::engine::merge::{live_rows, no_rows, oldest_first, renormed};
use crate::engine::plan::{buildable, by_name, flushed_to, lemma_unflushed, unflushed};
use crate::engine::read::{alive_in, listing, rows_in};
use crate::engine::renew::RenewPlan;
use crate::engine::view::{layered, CollView};
use crate::error::{Error, Invalid};
use crate::filter::Condition;
use crate::kernel::{Kernel, Metric};
use crate::manifest::{entry_at, lemma_entry_from};
use crate::id::IdView;
use crate::segment::immutable::ImmutableSegment;
use crate::segment::mutable::MutableSegment;
use crate::segment::{lemma_live_len, Row, Table};

verus! {

/// Whether a collection has few enough rows, also with some more: they can be counted, and all
/// could be given an index together.
pub open spec fn has_space(c: Collection, more: nat) -> bool {
    &&& c.view.rows_total() + more <= u32::MAX
    &&& buildable(c.config, c.view.rows_total() + more)
}

/// Whether all collections have few enough rows, also with some more.
pub open spec fn spacious(db: Database, more: nat) -> bool {
    forall|i: int| 0 <= i < db.collections@.len() ==> has_space(#[trigger] db.collections@[i], more)
}

/// Whether every collection is in the manifest.
pub open spec fn enlisted(db: Database) -> bool {
    forall|i: int|
        0 <= i < db.collections@.len() ==> entry_at(
            db.manifest@.entries,
            (#[trigger] db.collections@[i]).name@,
        ) < db.manifest@.entries.len()
}

/// The collections of a database that is stored are in its manifest.
pub proof fn lemma_enlisted(db: Database, disk: Disk, next_lsn: u64)
    requires
        durable(db, disk, next_lsn),
    ensures
        enlisted(db),
{
    assert forall|i: int| 0 <= i < db.collections@.len() implies entry_at(
        db.manifest@.entries,
        (#[trigger] db.collections@[i]).name@,
    ) < db.manifest@.entries.len() by {
        assert(is_stored(disk, db.collections@[i]));
    }
}

/// An index of fewer rows can be built as well.
pub proof fn lemma_buildable_less(config: CollectionConfig, a: nat, b: nat)
    requires
        buildable(config, b),
        a <= b,
    ensures
        buildable(config, a),
{
    if let IndexKind::Hnsw { params } = config.index {
        assert(a * params.m0 <= b * params.m0) by (nonlinear_arith)
            requires
                a <= b,
                params.m0 >= 0,
        ;
    }
}

/// An index of no rows can be built.
pub proof fn lemma_buildable_none(config: CollectionConfig)
    ensures
        buildable(config, 0),
{
    if let IndexKind::Hnsw { params } = config.index {
        assert(0 * params.m0 == 0) by (nonlinear_arith);
    }
}

/// There is space for fewer rows as well.
pub proof fn lemma_space_less(a: Collection, more: nat, b: Collection, less: nat)
    requires
        has_space(a, more),
        b.config == a.config,
        b.view.rows_total() + less <= a.view.rows_total() + more,
    ensures
        has_space(b, less),
{
    lemma_buildable_less(a.config, b.view.rows_total() + less, a.view.rows_total() + more);
}

/// There is space for fewer rows as well.
pub proof fn lemma_spacious_less(db: Database, more: nat, less: nat)
    requires
        spacious(db, more),
        less <= more,
    ensures
        spacious(db, less),
{
    assert forall|i: int| 0 <= i < db.collections@.len() implies has_space(
        #[trigger] db.collections@[i],
        less,
    ) by {
        lemma_space_less(db.collections@[i], more, db.collections@[i], less);
    }
}

/// Rows that are not dead are no more than all.
pub proof fn lemma_live_fewer(rows: Seq<Row>, dead: Set<u32>)
    ensures
        live_rows(rows, dead).len() <= rows.len(),
{
    lemma_listing_fewer(rows, dead, rows.len());
}

proof fn lemma_listing_fewer(rows: Seq<Row>, dead: Set<u32>, n: nat)
    ensures
        listing(rows, dead, None::<Condition>, n).len() <= n,
    decreases n,
{
    if n > 0 {
        lemma_listing_fewer(rows, dead, (n - 1) as nat);
    }
}

/// Whether the numbers that a table has for identifiers are those of rows.
pub open spec fn in_rows(t: Table) -> bool {
    forall|id: IdView| #[trigger] t.index.contains_key(id) ==> t.index[id] < t.rows.len()
}

/// Rows that are written to a table add no more rows than they are.
pub proof fn lemma_put_grows(t: Table, rows: Seq<Row>)
    requires
        in_rows(t),
        t.rows.len() + rows.len() <= u32::MAX,
    ensures
        t.put_all(rows).rows.len() <= t.rows.len() + rows.len(),
        in_rows(t.put_all(rows)),
    decreases rows.len(),
{
    if rows.len() > 0 {
        lemma_put_grows(t, rows.drop_last());
        let before = t.put_all(rows.drop_last());
        let after = t.put_all(rows);
        assert forall|id: IdView| #[trigger] after.index.contains_key(id) implies after.index[id]
            < after.rows.len() by {
            assert(before.index.contains_key(id) || id == rows.last().id);
        }
    }
}

/// Rows that are written one after the other come to no more rows.
pub proof fn lemma_put_fewer(m: MutableSegment, rows: Seq<Row>)
    requires
        m.valid(),
        m.table() == no_rows().put_all(rows),
    ensures
        m.rows().len() <= rows.len(),
{
    m.lemma_valid();
    assert(m.rows() == m.table().rows);
    if rows.len() <= u32::MAX {
        lemma_put_grows(no_rows(), rows);
    }
}

proof fn lemma_oldest_fewer(segs: Seq<ImmutableSegment>)
    ensures
        oldest_first(segs).len() <= rows_in(segs),
    decreases segs.len(),
{
    if segs.len() > 0 {
        lemma_oldest_fewer(segs.drop_last());
        lemma_live_fewer(segs.last().rows(), segs.last().dead());
    }
}

/// Rows that are not dead are no more than all.
pub proof fn lemma_chronicle_fewer(view: CollView)
    ensures
        view.chronicle().len() <= view.rows_total(),
{
    lemma_oldest_fewer(view.immutables@);
    lemma_live_fewer(view.mutable.rows(), view.mutable.dead());
}

/// How many rows there are once a segment was exchanged.
pub proof fn lemma_rows_update(segs: Seq<ImmutableSegment>, i: int, s: ImmutableSegment)
    requires
        0 <= i < segs.len(),
    ensures
        rows_in(segs.update(i, s)) == rows_in(segs) - segs[i].rows().len() + s.rows().len(),
        rows_in(segs) >= segs[i].rows().len(),
    decreases segs.len(),
{
    let rest = segs.drop_last();
    let now = segs.update(i, s);
    if i == segs.len() - 1 {
        assert(now.drop_last() =~= rest);
    } else {
        lemma_rows_update(rest, i, s);
        assert(now.drop_last() =~= rest.update(i, s));
        assert(now.last() == segs.last());
    }
}

/// How many rows there are once a segment was removed.
pub proof fn lemma_rows_remove(segs: Seq<ImmutableSegment>, i: int)
    requires
        0 <= i < segs.len(),
    ensures
        rows_in(segs.remove(i)) == rows_in(segs) - segs[i].rows().len(),
    decreases segs.len(),
{
    let rest = segs.drop_last();
    let now = segs.remove(i);
    if i == segs.len() - 1 {
        assert(now =~= rest);
    } else {
        lemma_rows_remove(rest, i);
        assert(now.drop_last() =~= rest.remove(i));
        assert(now.last() == segs.last());
    }
}

/// Closing a stage leaves no more rows than there were.
pub proof fn lemma_closes_fewer(job: Job, db: Database, after: Database, more: nat)
    requires
        job.closable(db),
        job.closes(db, after),
        spacious(db, more),
    ensures
        spacious(after, more),
        after.options == db.options,
{
    assert forall|i: int| 0 <= i < after.collections@.len() implies has_space(
        #[trigger] after.collections@[i],
        more,
    ) by {
        assert(has_space(db.collections@[i], more));
        lemma_closes_one(job, db, after, i);
        lemma_space_less(db.collections@[i], more, after.collections@[i], more);
    }
}

/// A segment that is put in the place of another one has no more rows.
pub proof fn lemma_rebuild_rows<N, S>(
    db: Database,
    name: Seq<char>,
    si: usize,
    plan: RenewPlan,
    kernel: Kernel<N, S>,
    m: MutableSegment,
) where N: Fn(&[u32]) -> u32, S: Fn(Metric, &[u32], u32, &[u32], u32) -> u32
    requires
        db.rebuild_planned(name, si, plan, kernel, m),
    ensures
        plan.seg matches Some(s) ==> s.rows().len() <= db.collections@[plan.at as int].view.immutables@[
        si as int].rows().len(),
{
    let old_seg = db.collections@[plan.at as int].view.immutables@[si as int];
    lemma_live_fewer(old_seg.rows(), old_seg.dead());
    lemma_put_fewer(m, renormed(live_rows(old_seg.rows(), old_seg.dead()), kernel));
}

/// Rebuilding a segment leaves no more rows and segments than there were.
proof fn lemma_rebuilt_one(db: Database, after: Database, si: usize, plan: RenewPlan, i: int)
    requires
        db.rebuild_committed(after, si, plan),
        plan.at < db.collections@.len(),
        si < db.collections@[plan.at as int].view.immutables@.len(),
        plan.seg matches Some(s) ==> s.rows().len() <= db.collections@[plan.at as int].view.immutables@[
        si as int].rows().len(),
        0 <= i < after.collections@.len(),
    ensures
        after.collections@.len() == db.collections@.len(),
        after.collections@[i].config == db.collections@[i].config,
        after.collections@[i].name == db.collections@[i].name,
        after.collections@[i].view.rows_total() <= db.collections@[i].view.rows_total(),
        after.collections@[i].view.immutables@.len() <= db.collections@[i].view.immutables@.len(),
{
    if i == plan.at {
        let segs = db.collections@[i].view.immutables@;
        match plan.seg {
            Some(s) => {
                lemma_rows_update(segs, si as int, s);
            },
            None => {
                lemma_rows_remove(segs, si as int);
            },
        }
    }
}

/// What rebuilding a segment leaves as it is.
pub proof fn lemma_rebuilt_same<N, S>(
    db: Database,
    mid: Database,
    after: Database,
    name: Seq<char>,
    si: usize,
    plan: RenewPlan,
    kernel: Kernel<N, S>,
    m: MutableSegment,
) where N: Fn(&[u32]) -> u32, S: Fn(Metric, &[u32], u32, &[u32], u32) -> u32
    requires
        db.rebuild_planned(name, si, plan, kernel, m),
        db.took(mid, plan.seg),
        mid.rebuild_committed(after, si, plan),
    ensures
        same_roster(db, after, 0),
        forall|more: nat| #[trigger] spacious(db, more) ==> spacious(after, more),
        enlisted(db) ==> enlisted(after),
        after.next_seg_id <= db.next_seg_id + 1,
{
    lemma_rebuild_rows(db, name, si, plan, kernel, m);
    assert forall|i: int| 0 <= i < db.collections@.len() implies (
    #[trigger] after.collections@[i]).name == db.collections@[i].name
        && after.collections@[i].config == db.collections@[i].config
        && after.collections@[i].view.rows_total() <= db.collections@[i].view.rows_total()
        && after.collections@[i].view.immutables@.len()
        <= db.collections@[i].view.immutables@.len() by {
        lemma_rebuilt_one(mid, after, si, plan, i);
    }
    assert(after.collections@.len() == db.collections@.len());
    assert forall|more: nat| #[trigger] spacious(db, more) implies spacious(after, more) by {
        assert forall|i: int| 0 <= i < after.collections@.len() implies has_space(
            #[trigger] after.collections@[i],
            more,
        ) by {
            assert(has_space(db.collections@[i], more));
            lemma_space_less(db.collections@[i], more, after.collections@[i], more);
        }
    }
    if enlisted(db) {
        let a = db.manifest@.entries;
        let b = after.manifest@.entries;
        assert forall|i: int| 0 <= i < after.collections@.len() implies entry_at(
            b,
            (#[trigger] after.collections@[i]).name@,
        ) < b.len() by {
            let x = db.collections@[i].name@;
            assert(entry_at(a, x) < a.len());
            let k = entry_at(a, x);
            lemma_entry_from(a, x, 0);
            lemma_entry_from(b, x, 0);
            lemma_entry_from(a, name, 0);
            assert(after.manifest@ == plan.manifest@);
            assert(b.len() == a.len());
            assert(b[k].name == a[k].name);
        }
    }
}

proof fn lemma_closes_one(job: Job, db: Database, after: Database, i: int)
    requires
        job.closable(db),
        job.closes(db, after),
        0 <= i < after.collections@.len(),
    ensures
        i < db.collections@.len(),
        after.collections@.len() == db.collections@.len(),
        after.collections@[i].config == db.collections@[i].config,
        after.collections@[i].name == db.collections@[i].name,
        after.collections@[i].view.rows_total() <= db.collections@[i].view.rows_total(),
        after.collections@[i].view.immutables@.len() <= db.collections@[i].view.immutables@.len()
            + (if job.stage is Flush || job.stage is Compact {
            1int
        } else {
            0int
        }),
{
    match job.stage {
        Stage::Rebuild(si, plan) => {
            lemma_rebuilt_one(db, after, si, plan, i);
        },
        Stage::Compact(plan) => {
            if i == plan.at {
                let view = after.collections@[i].view;
                lemma_cleared(view);
                reveal_with_fuel(rows_in, 2);
                if plan.seg is Some {
                    assert(view.immutables@.drop_last() =~= Seq::<ImmutableSegment>::empty());
                }
            }
        },
        Stage::Flush(plan) => {
            let n = db.collections.len();
            assert(n == db.collections@.len());
            let x = i as usize;
            if plan.at@.contains(x) {
                let j = choose|j: int| 0 <= j < plan.at@.len() && plan.at@[j] == x;
                let seg = plan.segs@[j];
                let a = db.collections@[i];
                let b = after.collections@[i];
                assert(flushed_to(a, b, seg));
                lemma_cleared(b.view);
                assert(b.view.immutables@.drop_last() =~= a.view.immutables@);
            } else {
                assert(after.collections@[x as int] == db.collections@[x as int]);
            }
        },
        _ => {},
    }
}

proof fn lemma_cleared(view: CollView)
    requires
        view.mutable.table() == no_rows(),
    ensures
        view.mutable.rows().len() == 0,
{
    assert(view.mutable.rows() == view.mutable.table().rows);
}

/// Whether two states have the same collections, by their names and configurations, and none of
/// them has more rows than before, or more segments but for `new` ones.
pub open spec fn same_roster(a: Database, b: Database, new: int) -> bool {
    &&& a.collections@.len() == b.collections@.len()
    &&& forall|i: int|
        0 <= i < a.collections@.len() ==> (#[trigger] b.collections@[i]).name
            == a.collections@[i].name && b.collections@[i].config == a.collections@[i].config
            && b.collections@[i].view.rows_total() <= a.collections@[i].view.rows_total()
            && b.collections@[i].view.immutables@.len() <= a.collections@[i].view.immutables@.len()
            + new
}

/// A stage that is closed leaves the same collections.
pub proof fn lemma_closes_roster(job: Job, db: Database, after: Database)
    requires
        job.closable(db),
        job.closes(db, after),
    ensures
        same_roster(
            db,
            after,
            if job.stage is Flush || job.stage is Compact {
                1int
            } else {
                0int
            },
        ),
{
    assert forall|i: int| 0 <= i < db.collections@.len() implies (
    #[trigger] after.collections@[i]).name == db.collections@[i].name
        && after.collections@[i].config == db.collections@[i].config
        && after.collections@[i].view.rows_total() <= db.collections@[i].view.rows_total()
        && after.collections@[i].view.immutables@.len() <= db.collections@[i].view.immutables@.len()
        + (if job.stage is Flush || job.stage is Compact {
        1int
    } else {
        0int
    }) by {
        lemma_closes_one(job, db, after, i);
    }
}

/// The same collections are in the same places.
pub proof fn lemma_roster(a: Database, b: Database, new: int, name: Seq<char>)
    requires
        same_roster(a, b, new),
    ensures
        coll_at(a.collections@, name) == coll_at(b.collections@, name),
{
    lemma_coll_from(a.collections@, name, 0);
    lemma_coll_from(b.collections@, name, 0);
    let x = coll_at(a.collections@, name);
    let y = coll_at(b.collections@, name);
    if x < y {
        assert(b.collections@[x].name == a.collections@[x].name);
    } else if y < x {
        assert(b.collections@[y].name == a.collections@[y].name);
    }
}

/// The names are the same once a stage was closed.
pub proof fn lemma_closes_names(job: Job, db: Database, after: Database, name: Seq<char>)
    requires
        job.closable(db),
        job.closes(db, after),
    ensures
        coll_at(after.collections@, name) == coll_at(db.collections@, name),
        after.collections@.len() == db.collections@.len(),
        after.next_seg_id == db.next_seg_id,
{
    assert(after.collections@.len() == db.collections@.len());
    assert forall|i: int| 0 <= i < after.collections@.len() implies (
    #[trigger] after.collections@[i]).name == db.collections@[i].name by {
        lemma_closes_one(job, db, after, i);
    }
    lemma_coll_from(db.collections@, name, 0);
    lemma_coll_from(after.collections@, name, 0);
    let x = coll_at(after.collections@, name);
    let y = coll_at(db.collections@, name);
    if x < y {
        assert(after.collections@[x].name == db.collections@[x].name);
    } else if y < x {
        assert(after.collections@[y].name == db.collections@[y].name);
    }
}

/// The points of a segment are no more than its rows.
pub proof fn lemma_points_fewer(seg: ImmutableSegment)
    requires
        seg.valid(),
    ensures
        seg.live().len() <= seg.rows().len(),
{
    seg.lemma_valid();
    lemma_live_len(seg.rows(), seg.index(), seg.dead());
}

/// A segment has no more rows than all together.
proof fn lemma_one_of(segs: Seq<ImmutableSegment>, i: int)
    requires
        0 <= i < segs.len(),
    ensures
        segs[i].rows().len() <= rows_in(segs),
{
    lemma_rows_update(segs, i, segs[i]);
}

/// Where there is space, and every collection is in the manifest, rebuilding a segment is not
/// refused.
pub proof fn lemma_rebuild_goes(db: Database, name: Seq<char>, si: usize, e: Error)
    requires
        db.valid(),
        spacious(db, 0),
        enlisted(db),
        coll_at(db.collections@, name) < db.collections@.len(),
    ensures
        !db.rebuild_refused(name, si, e),
{
    lemma_coll_from(db.collections@, name, 0);
    let at = coll_at(db.collections@, name);
    let c = db.collections@[at];
    assert(has_space(c, 0));
    assert(c.valid());
    if si < c.view.immutables@.len() {
        let seg = c.view.immutables@[si as int];
        lemma_points_fewer(seg);
        lemma_one_of(c.view.immutables@, si as int);
        lemma_buildable_less(c.config, seg.live().len(), c.view.rows_total() + 0);
    }
}

/// The points of some segments are no more than their rows.
proof fn lemma_layered_fewer(segs: Seq<ImmutableSegment>)
    requires
        forall|i: int| 0 <= i < segs.len() ==> (#[trigger] segs[i]).valid(),
    ensures
        layered(segs).dom().finite(),
        layered(segs).len() <= rows_in(segs),
        alive_in(segs) <= rows_in(segs),
    decreases segs.len(),
{
    if segs.len() > 0 {
        let rest = segs.drop_last();
        let last = segs[segs.len() - 1];
        assert(last.valid());
        assert forall|i: int| 0 <= i < rest.len() implies (#[trigger] rest[i]).valid() by {
            assert(segs[i].valid());
        }
        lemma_layered_fewer(rest);
        last.lemma_valid();
        lemma_live_len(last.rows(), last.index(), last.dead());
        assert(layered(segs).dom() =~= layered(rest).dom().union(last.live().dom()));
        vstd::set_lib::lemma_len_union(layered(rest).dom(), last.live().dom());
    }
}

/// The points of a collection are no more than its rows.
pub proof fn lemma_contents_fewer(view: CollView)
    requires
        view.valid(),
    ensures
        view.contents().len() <= view.rows_total(),
        view.alive_total() <= view.rows_total(),
        view.contents().dom().finite(),
{
    let segs = view.immutables@;
    view.mutable.lemma_valid();
    lemma_live_len(view.mutable.rows(), view.mutable.index(), view.mutable.dead());
    lemma_layered_fewer(segs);
    assert(view.contents().dom() =~= layered(segs).dom().union(view.mutable.live().dom()));
    vstd::set_lib::lemma_len_union(layered(segs).dom(), view.mutable.live().dom());
}

/// Where there is space, and every collection is in the manifest, compacting one that is there
/// is not refused.
pub proof fn lemma_compact_goes(db: Database, name: Seq<char>, e: Error)
    requires
        db.valid(),
        spacious(db, 0),
        enlisted(db),
        coll_at(db.collections@, name) < db.collections@.len(),
    ensures
        !db.compact_refused(name, e),
{
    lemma_coll_from(db.collections@, name, 0);
    let at = coll_at(db.collections@, name);
    let c = db.collections@[at];
    assert(has_space(c, 0));
    assert(c.valid());
    lemma_contents_fewer(c.view);
    lemma_buildable_less(c.config, c.view.contents().len(), c.view.rows_total() + 0);
}

/// A flush is about collections that are there, each once.
pub proof fn lemma_flushes(db: Database, at: Seq<usize>)
    requires
        db.flushes(at),
    ensures
        at.len() <= db.collections@.len(),
        forall|j: int| 0 <= j < at.len() ==> (#[trigger] at[j]) < db.collections@.len(),
{
    let colls = db.collections@;
    let order = choose|order: Seq<usize>| #[trigger]
        by_name(colls, order) && order.len() == colls.len() && at == unflushed(
            colls,
            order,
            order.len(),
        );
    lemma_unflushed(colls, order, order.len());
}

/// Where there is space, and every collection is in the manifest, flushing is not refused.
pub proof fn lemma_flush_goes(db: Database, e: Error)
    requires
        spacious(db, 0),
        enlisted(db),
    ensures
        !db.flush_refused(e),
{
    if db.flush_refused(e) {
        let (at, j) = choose|at: Seq<usize>, j: int| #[trigger]
            db.flushes(at) && 0 <= j < at.len() && {
                let c = db.collections@[(#[trigger] at[j]) as int];
                ||| !buildable(c.config, c.view.mutable.rows().len()) && e == Error::Invalid(
                    Invalid::SegmentTooLarge,
                )
                ||| entry_at(db.manifest@.entries, c.name@)
                    == db.manifest@.entries.len() && (e matches Error::Invalid(
                    Invalid::FlushMissing(name),
                ) && name@ == c.name@)
            };
        lemma_flushes(db, at);
        let c = db.collections@[at[j] as int];
        assert(has_space(c, 0));
        lemma_buildable_less(c.config, c.view.mutable.rows().len(), c.view.rows_total() + 0);
    }
}

} // verus!
