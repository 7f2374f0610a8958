//! That flushing survives a crash.

use vstd::prelude::*;

use crate::collection::CollectionConfig;
use crate::engine::database::{
    coll_at, lemma_coll_from, lemma_kept_none, Collection, Database, Step,
};
use crate::index::hnsw::image::law_index_round_trip;
use crate::engine::disk::{
    lemma_agree_settled, lemma_new_files, lemma_on_disk, lemma_performed_parts,
    lemma_stacked_layered, new_files, on_disk, saves, settled_over, stacked, Disk,
};
use crate::engine::durable::{
    durable, gives_back, has_num, has_seg, holds_less, is_stored, lemma_entry_stored,
    lemma_nums_stored, lemma_stacked_equal, lemma_tidy_less, lemma_tidy_of, lists_entry,
    lists_stored, numbered, seg_number, stored, tidy,
};
use crate::engine::open::numbers_differ;
use crate::engine::merge::made;
use crate::engine::outcome::{agree, law_floor_is_skipped, orderly, settled_kept, Kept};
use crate::engine::plan::{
    by_name, flushed_to, keeps_same, lemma_flush_suits, lemma_names_stay, lemma_stores_made,
    lemma_unflushed, stores_segment, stores_segments, unflushed, with_segments, FlushPlan,
};
use crate::engine::renew::numbers;
use crate::engine::view::{disjoint, layered};
use crate::id::IdView;
use crate::json::JsonView;
use crate::kernel::{Kernel, Metric};
use crate::manifest::{entry_at, lemma_entry_from, lemma_names_kept, names_differ, EntryView};
use crate::segment::immutable::{all_covered, covered, settled_live, ImmutableSegment};
use crate::segment::mutable::MutableSegment;
use crate::segment::Entry;
use crate::wal::RecordView;

verus! {

/// Whether what is stored is as before but for segments whose numbers lie in a range.
pub open spec fn same_but(disk: Disk, after: Disk, first: int, end: int) -> bool {
    &&& after.manifest == disk.manifest
    &&& after.log == disk.log
    &&& forall|num: u64|
        !(first <= num < end) ==> (#[trigger] after.segs.contains_key(num)
            <==> disk.segs.contains_key(num)) && after.segs[num] == disk.segs[num]
}

/// Whether one of some segments is stored, under a number from `first` on.
pub open spec fn stored_at(disk: Disk, segs: Seq<ImmutableSegment>, first: u64, j: int) -> bool {
    let id = (first + j) as u64;
    disk.segs.contains_key(id) && on_disk(disk.segs[id], segs[j])
}

/// Whether the first `n` of some segments are stored, under numbers from `first` on.
pub open spec fn stored_from(disk: Disk, segs: Seq<ImmutableSegment>, first: u64, n: nat) -> bool {
    forall|j: int| 0 <= j < n ==> #[trigger] stored_at(disk, segs, first, j)
}

proof fn lemma_same_chain(
    disk: Disk,
    mid: Disk,
    after: Disk,
    segs: Seq<ImmutableSegment>,
    first: u64,
    n: nat,
)
    requires
        n > 0,
        first + n <= u64::MAX,
        same_but(disk, mid, first as int, first + n - 1),
        same_but(mid, after, first + n - 1, first + n),
    ensures
        same_but(disk, after, first as int, (first + n) as int),
        chained(mid, after, segs, first, n),
{
    assert forall|num: u64| !(first <= num < first + n) implies (#[trigger] after.segs.contains_key(
        num,
    ) <==> disk.segs.contains_key(num)) && after.segs[num] == disk.segs[num] by {
        assert(mid.segs.contains_key(num) <==> disk.segs.contains_key(num));
    }
    let id = (first + n - 1) as u64;
    if stored_from(mid, segs, first, (n - 1) as nat) && after.segs.contains_key(id) && on_disk(
        after.segs[id],
        segs[n - 1],
    ) {
        assert(stored_from(after, segs, first, n)) by {
            assert forall|j: int| 0 <= j < n implies #[trigger] stored_at(
                after,
                segs,
                first,
                j,
            ) by {
                if j < n - 1 {
                    assert(stored_at(mid, segs, first, j));
                    assert(after.segs.contains_key((first + j) as u64));
                }
            }
        }
    }
}

/// Whether all of the first `n` segments are stored once the last one of them is.
spec fn chained(
    mid: Disk,
    after: Disk,
    segs: Seq<ImmutableSegment>,
    first: u64,
    n: nat,
) -> bool {
    let id = (first + n - 1) as u64;
    stored_from(mid, segs, first, (n - 1) as nat) && after.segs.contains_key(id) && on_disk(
        after.segs[id],
        segs[n - 1],
    ) ==> stored_from(after, segs, first, n)
}

/// What is stored while a new segment is.
pub proof fn lemma_written<N, S>(
    disk: Disk,
    steps: Seq<Step>,
    seg: ImmutableSegment,
    id: u64,
    m: MutableSegment,
    config: CollectionConfig,
    kernel: Kernel<N, S>,
    k: int,
) where N: Fn(&[u32]) -> u32, S: Fn(Metric, &[u32], u32, &[u32], u32) -> u32
    requires
        stores_segment(steps, seg, id, m),
        made(seg, config, id, m, kernel),
        m.valid(),
        0 <= k <= steps.len(),
    ensures
        ({
            let after = disk.performed_all(steps.take(k));
            &&& same_but(disk, after, id as int, id + 1)
            &&& k == steps.len() ==> after.segs.contains_key(id) && on_disk(after.segs[id], seg)
        }),
{
    let after = disk.performed_all(steps.take(k));
    assert(disk.performed_all(Seq::<Step>::empty()) == disk);
    if k == 0 {
        assert(steps.take(0) =~= Seq::<Step>::empty());
    } else {
        let parts = steps[0]->WriteSegment_0;
        lemma_new_files(id, m, parts);
        m.lemma_valid();
        seg.lemma_valid();
        assert(seg.store().rows() =~= seg.rows()) by {
            assert(seg.rows() == all_covered(seg.store().rows(), seg.over()));
            assert forall|i: int| 0 <= i < seg.store().rows().len() implies #[trigger] seg.rows()[i]
                == seg.store().rows()[i] by {
                assert(covered(seg.store().rows()[i], seg.over()) == seg.store().rows()[i]);
            }
        }
        assert(settled_over(seg.over()) =~= Map::<IdView, Option<JsonView>>::empty());
        let one = steps.take(1);
        assert(one.drop_last() =~= Seq::<Step>::empty());
        assert(one.last() == steps[0]);
        let mid = disk.performed_all(one);
        assert(mid == disk.performed(steps[0]));
        assert(mid.segs == disk.segs.insert(id, new_files(parts)));
        assert(seg.graph() is None ==> on_disk(mid.segs[id], seg));
        if k == 2 {
            assert(steps.take(2).drop_last() =~= one);
            assert(steps.take(2).last() == steps[1]);
            assert(after == mid.performed(steps[1]));
            let g = seg.graph()->0;
            if saves(g) {
                law_index_round_trip(g);
            }
            assert(on_disk(after.segs[id], seg));
        }
    }
}

/// What is stored while the new segments of some collections are.
proof fn lemma_all_written<N, S>(
    disk: Disk,
    colls: Seq<Collection>,
    at: Seq<usize>,
    first: u64,
    segs: Seq<ImmutableSegment>,
    steps: Seq<Step>,
    kernel: Kernel<N, S>,
    n: nat,
    k: int,
) where N: Fn(&[u32]) -> u32, S: Fn(Metric, &[u32], u32, &[u32], u32) -> u32
    requires
        stores_segments(colls, at, first, segs, steps, kernel, n),
        n <= at.len(),
        first + n <= u64::MAX,
        forall|j: int| 0 <= j < n ==> colls[(#[trigger] at[j]) as int].view.mutable.valid(),
        0 <= k <= steps.len(),
    ensures
        ({
            let after = disk.performed_all(steps.take(k));
            &&& same_but(disk, after, first as int, (first + n) as int)
            &&& k == steps.len() ==> stored_from(after, segs, first, n)
        }),
    decreases n,
{
    let after = disk.performed_all(steps.take(k));
    if n == 0 {
        assert(steps.take(k) =~= Seq::<Step>::empty());
    } else {
        let c = colls[at[n - 1] as int];
        let id = (first + n - 1) as u64;
        let cut = choose|cut: int|
            0 <= cut <= steps.len() && #[trigger] stores_segment(
                steps.skip(cut),
                segs[n - 1],
                id,
                c.view.mutable,
            ) && stores_segments(
                colls,
                at,
                first,
                segs,
                steps.take(cut),
                kernel,
                (n - 1) as nat,
            );
        let head = steps.take(cut);
        let tail = steps.skip(cut);
        assert(colls[at[n - 1] as int].view.mutable.valid());
        if k <= cut {
            assert(head.take(k) =~= steps.take(k));
            lemma_all_written(disk, colls, at, first, segs, head, kernel, (n - 1) as nat, k);
            assert(tail.len() > 0);
        } else {
            lemma_all_written(disk, colls, at, first, segs, head, kernel, (n - 1) as nat, cut);
            assert(head.take(cut) =~= head);
            let mid = disk.performed_all(head);
            lemma_performed_parts(disk, steps.take(k), cut);
            assert(steps.take(k).take(cut) =~= head);
            assert(steps.take(k).skip(cut) =~= tail.take(k - cut));
            lemma_written(
                mid,
                tail,
                segs[n - 1],
                id,
                c.view.mutable,
                c.config,
                kernel,
                k - cut,
            );
            lemma_same_chain(disk, mid, after, segs, first, n);
        }
    }
}

/// The segments of a collection once new ones were added to the manifest.
proof fn lemma_lists(
    entries: Seq<EntryView>,
    colls: Seq<Collection>,
    at: Seq<usize>,
    first: u64,
    n: nat,
    name: Seq<char>,
)
    requires
        n <= at.len(),
        forall|j: int|
            0 <= j < n ==> entry_at(entries, colls[(#[trigger] at[j]) as int].name@)
                < entries.len(),
        forall|a: int, b: int|
            0 <= a < b < n ==> colls[(#[trigger] at[a]) as int].name@ != colls[(
            #[trigger] at[b]) as int].name@,
        entry_at(entries, name) < entries.len(),
    ensures
        ({
            let e = entry_at(entries, name);
            let list = with_segments(entries, colls, at, first, n)[e].segments;
            &&& (forall|j: int| 0 <= j < n ==> colls[(#[trigger] at[j]) as int].name@ != name)
                ==> list == entries[e].segments
            &&& forall|j: int|
                0 <= j < n && colls[(#[trigger] at[j]) as int].name@ == name ==> list
                    == entries[e].segments.push((first + j) as u64)
        }),
    decreases n,
{
    if n > 0 {
        let mid = with_segments(entries, colls, at, first, (n - 1) as nat);
        lemma_lists(entries, colls, at, first, (n - 1) as nat, name);
        lemma_names_stay(entries, colls, at, first, (n - 1) as nat);
        lemma_entry_from(entries, name, 0);
        let other = colls[at[n - 1] as int].name@;
        lemma_entry_from(entries, other, 0);
        assert(entry_at(mid, other) == entry_at(entries, other));
        if other == name {
            assert forall|j: int| 0 <= j < n - 1 implies colls[(
            #[trigger] at[j]) as int].name@ != name by {}
        } else {
            assert(entry_at(entries, other) != entry_at(entries, name));
        }
    }
}

/// Where nothing is stored anew but segments with new numbers, everything is as before.
pub proof fn lemma_unnoticed(db: Database, disk: Disk, after: Disk, next_lsn: u64)
    requires
        durable(db, disk, next_lsn),
        after.manifest == disk.manifest,
        after.log == disk.log,
        forall|num: u64|
            num < db.next_seg_id ==> (#[trigger] after.segs.contains_key(num)
                <==> disk.segs.contains_key(num)) && after.segs[num] == disk.segs[num],
    ensures
        forall|name: Seq<char>| #[trigger] after.base(name) == disk.base(name),
        gives_back(after, db),
{
    assert forall|name: Seq<char>| #[trigger] after.base(name) == disk.base(name) by {
        lemma_kept_none(db.collections@, name);
        lemma_coll_from(db.collections@, name, 0);
        assert(db.kept(name) is Some <==> entry_at(disk.manifest.entries, name)
            < disk.manifest.entries.len());
        if db.kept(name) is Some {
            let i = coll_at(db.collections@, name);
            let c = db.collections@[i];
            assert(is_stored(disk, c));
            let ids = numbers(c.view.immutables@);
            assert forall|j: int| 0 <= j < ids.len() implies after.segs[#[trigger] ids[j]]
                == disk.segs[ids[j]] by {
                assert(has_seg(db, i, j));
                assert(seg_number(db, i, j) < db.next_seg_id);
                assert(after.segs.contains_key(ids[j]) <==> disk.segs.contains_key(ids[j]));
            }
            lemma_stacked_equal(after.segs, disk.segs, ids);
        }
    }
    assert forall|name: Seq<char>| #[trigger]
        orderly(after.base(name), after.log, after.manifest.last_flushed_lsn, name) by {
        assert(after.base(name) == disk.base(name));
        assert(orderly(disk.base(name), disk.log, disk.manifest.last_flushed_lsn, name));
    }
    assert forall|name: Seq<char>| #[trigger]
        settled_kept(after.recovered(name)) == settled_kept(db.kept(name)) by {
        assert(after.base(name) == disk.base(name));
        assert(settled_kept(disk.recovered(name)) == settled_kept(db.kept(name)));
    }
    assert(tidy(after)) by {
        let entries = disk.manifest.entries;
        assert forall|i: int, j: int| #[trigger] has_num(entries, i, j) implies holds_less(
            disk,
            after,
            entries[i].segments[j],
        ) by {
            lemma_nums_stored(db, disk, i, j);
            let num = entries[i].segments[j];
            assert(after.segs.contains_key(num) <==> disk.segs.contains_key(num));
        }
        lemma_tidy_less(disk, after);
    }
}

/// Without rows there are no points.
proof fn lemma_empty_rows(m: MutableSegment)
    requires
        m.valid(),
        m.rows().len() == 0,
    ensures
        m.live() == Map::<IdView, Entry>::empty(),
{
    m.lemma_valid();
    assert forall|id: IdView| !(#[trigger] m.live().contains_key(id)) by {
        if m.index().contains_key(id) {
            assert(m.index()[id] < m.rows().len());
        }
    }
    assert(m.live() =~= Map::<IdView, Entry>::empty());
}

/// Where segments are stored that hold all points of a collection, it is given back.
pub proof fn lemma_all_stacked(disk: Disk, ids: Seq<u64>, segs: Seq<ImmutableSegment>)
    requires
        ids == numbers(segs),
        forall|j: int|
            0 <= j < segs.len() ==> (#[trigger] segs[j]).valid() && on_disk(
                disk.segs[segs[j].number()],
                segs[j],
            ),
    ensures
        forall|id: IdView| #[trigger] agree(stacked(disk.segs, ids), layered(segs), id),
{
    assert forall|id: IdView| #[trigger] agree(stacked(disk.segs, ids), layered(segs), id) by {
        assert forall|j: int| 0 <= j < ids.len() implies agree(
            disk.segs[#[trigger] ids[j]].live(),
            segs[j].live(),
            id,
        ) by {
            assert(segs[j].valid());
            lemma_on_disk(disk.segs[segs[j].number()], segs[j]);
        }
        lemma_stacked_layered(disk.segs, ids, segs, id);
    }
}

/// What a plan to flush says of the collections.
proof fn lemma_flush_places<N, S>(
    db: Database,
    plan: FlushPlan,
    next_lsn: u64,
    kernel: Kernel<N, S>,
) where N: Fn(&[u32]) -> u32, S: Fn(Metric, &[u32], u32, &[u32], u32) -> u32
    requires
        db.valid(),
        db.flush_planned(plan, next_lsn, kernel),
    ensures
        plan.suits(db),
        forall|a: int, b: int|
            0 <= a < b < plan.at@.len() ==> db.collections@[(#[trigger] plan.at@[a]) as int].name@
                != db.collections@[(#[trigger] plan.at@[b]) as int].name@,
        forall|j: int|
            0 <= j < plan.at@.len() ==> (#[trigger] plan.segs@[j]).number() == (db.next_seg_id
                + j) as u64,
        forall|i: usize|
            i < db.collections@.len() && !plan.at@.contains(i) ==> (
            #[trigger] db.collections@[i as int]).view.mutable.live() == Map::<
                IdView,
                Entry,
            >::empty(),
        forall|j: int|
            0 <= j < plan.at@.len() ==> db.collections@[(
            #[trigger] plan.at@[j]) as int].view.mutable.valid(),
        db.collections@.len() <= usize::MAX,
{
    let colls = db.collections@;
    assert(colls.len() == db.collections.len());
    lemma_flush_suits(db, plan, next_lsn, kernel);
    let order = choose|order: Seq<usize>| #[trigger]
        by_name(colls, order) && order.len() == colls.len() && plan.at@ == unflushed(
            colls,
            order,
            order.len(),
        );
    lemma_unflushed(colls, order, order.len());
    assert forall|a: int, b: int| 0 <= a < b < plan.at@.len() implies colls[(
    #[trigger] plan.at@[a]) as int].name@ != colls[(#[trigger] plan.at@[b]) as int].name@ by {
        let x = plan.at@[a] as int;
        let y = plan.at@[b] as int;
        if x < y {
            assert(colls[x].name@ != colls[y].name@);
        } else {
            assert(colls[y].name@ != colls[x].name@);
        }
    }
    assert forall|j: int| 0 <= j < plan.at@.len() implies (#[trigger] plan.segs@[j]).number() == (
    db.next_seg_id + j) as u64 by {
        lemma_stores_made(
            colls,
            plan.at@,
            db.next_seg_id,
            plan.segs@,
            plan.steps@.take(plan.steps@.len() - 2),
            kernel,
            plan.at@.len(),
            j,
        );
    }
    assert forall|i: usize| i < colls.len() && !plan.at@.contains(i) implies (
    #[trigger] colls[i as int]).view.mutable.live() == Map::<IdView, Entry>::empty() by {
        assert(order.contains(i));
        let k = choose|k: int| 0 <= k < order.len() && order[k] == i;
        assert(colls[i as int].valid());
        lemma_empty_rows(colls[i as int].view.mutable);
    }
    assert forall|j: int| 0 <= j < plan.at@.len() implies colls[(
    #[trigger] plan.at@[j]) as int].view.mutable.valid() by {
        assert(colls[plan.at@[j] as int].valid());
    }
}

/// The segments of a collection once a flush is stored.
spec fn flushed_segs(db: Database, plan: FlushPlan, i: int) -> Seq<ImmutableSegment> {
    let segs = db.collections@[i].view.immutables@;
    if plan.at@.contains(i as usize) {
        segs.push(plan.segs@[plan.at@.index_of(i as usize)])
    } else {
        segs
    }
}

/// What the manifest and the segments say of a collection once a flush is stored.
proof fn lemma_flushed_at<N, S>(
    db: Database,
    disk: Disk,
    end: Disk,
    plan: FlushPlan,
    next_lsn: u64,
    kernel: Kernel<N, S>,
    i: int,
) where N: Fn(&[u32]) -> u32, S: Fn(Metric, &[u32], u32, &[u32], u32) -> u32
    requires
        stored(db, disk),
        db.flush_planned(plan, next_lsn, kernel),
        db.next_seg_id + db.collections@.len() <= u64::MAX,
        end.manifest == plan.manifest@,
        forall|num: u64|
            num < db.next_seg_id ==> (#[trigger] end.segs.contains_key(num)
                <==> disk.segs.contains_key(num)) && end.segs[num] == disk.segs[num],
        stored_from(end, plan.segs@, db.next_seg_id, plan.at@.len()),
        0 <= i < db.collections@.len(),
    ensures
        ({
            let c = db.collections@[i];
            let segs = flushed_segs(db, plan, i);
            let e = entry_at(end.manifest.entries, c.name@);
            &&& e < end.manifest.entries.len()
            &&& end.manifest.entries[e].config == c.config
            &&& end.manifest.entries[e].segments == numbers(segs)
            &&& forall|j: int|
                0 <= j < segs.len() ==> (#[trigger] segs[j]).valid() && end.segs.contains_key(
                    segs[j].number(),
                ) && on_disk(end.segs[segs[j].number()], segs[j])
            &&& settled_kept(end.base(c.name@)) == settled_kept(Some(c.kept()))
        }),
{
    let colls = db.collections@;
    let c = colls[i];
    let segs = flushed_segs(db, plan, i);
    let old_segs = c.view.immutables@;
    let entries = disk.manifest.entries;
    let first = db.next_seg_id;
    let n = plan.at@.len();
    lemma_flush_places(db, plan, next_lsn, kernel);
    assert(c.valid());
    assert(is_stored(disk, c));
    assert forall|j: int| 0 <= j < n implies entry_at(
        entries,
        colls[(#[trigger] plan.at@[j]) as int].name@,
    ) < entries.len() by {
        assert(is_stored(disk, colls[plan.at@[j] as int]));
    }
    lemma_names_stay(entries, colls, plan.at@, first, n);
    lemma_lists(entries, colls, plan.at@, first, n, c.name@);
    lemma_entry_from(entries, c.name@, 0);
    assert forall|j: int| 0 <= j < old_segs.len() implies (#[trigger] old_segs[j]).valid()
        && end.segs.contains_key(old_segs[j].number()) && on_disk(
        end.segs[old_segs[j].number()],
        old_segs[j],
    ) by {
        assert(has_seg(db, i, j));
        assert(seg_number(db, i, j) < first);
        assert(end.segs.contains_key(old_segs[j].number()));
    }
    if plan.at@.contains(i as usize) {
        let j = plan.at@.index_of(i as usize);
        assert(plan.at@[j] == i as usize);
        assert(stored_at(end, plan.segs@, first, j));
        assert(plan.segs@[j].number() == (first + j) as u64);
        assert(numbers(segs) =~= numbers(old_segs).push((first + j) as u64));
    } else {
        assert forall|j: int| 0 <= j < n implies colls[(
        #[trigger] plan.at@[j]) as int].name@ != c.name@ by {
            let x = plan.at@[j] as int;
            assert(plan.at@.contains(plan.at@[j]));
            if x < i {
                assert(colls[x].name@ != colls[i].name@);
            } else if x > i {
                assert(colls[i].name@ != colls[x].name@);
            }
        }
        assert(numbers(segs) =~= numbers(old_segs));
    }
    lemma_all_stacked(end, numbers(segs), segs);
    let points = stacked(end.segs, numbers(segs));
    assert forall|id: IdView| #[trigger] agree(points, c.view.contents(), id) by {
        assert(agree(points, layered(segs), id));
        if plan.at@.contains(i as usize) {
            let j = plan.at@.index_of(i as usize);
            assert(segs.drop_last() =~= old_segs);
            assert(segs.last() == plan.segs@[j]);
            assert(plan.segs@[j].live() == settled_live(c.view.mutable.live()));
        } else {
            assert(c.view.mutable.live() == Map::<IdView, Entry>::empty());
        }
    }
    lemma_agree_settled(points, c.view.contents());
}

/// What is given back once a flush is in the manifest.
proof fn lemma_flushed_back<N, S>(
    db: Database,
    disk: Disk,
    end: Disk,
    plan: FlushPlan,
    next_lsn: u64,
    kernel: Kernel<N, S>,
) where N: Fn(&[u32]) -> u32, S: Fn(Metric, &[u32], u32, &[u32], u32) -> u32
    requires
        durable(db, disk, next_lsn),
        next_lsn > 0,
        db.flush_planned(plan, next_lsn, kernel),
        db.next_seg_id + db.collections@.len() <= u64::MAX,
        plan.at@.len() <= db.collections@.len(),
        end.manifest == plan.manifest@,
        end.log == disk.log || end.log == Seq::<RecordView>::empty(),
        forall|num: u64|
            num < db.next_seg_id ==> (#[trigger] end.segs.contains_key(num)
                <==> disk.segs.contains_key(num)) && end.segs[num] == disk.segs[num],
        stored_from(end, plan.segs@, db.next_seg_id, plan.at@.len()),
    ensures
        gives_back(end, db),
        forall|name: Seq<char>| #[trigger]
            db.kept(name) is Some <==> entry_at(end.manifest.entries, name)
                < end.manifest.entries.len(),
{
    let colls = db.collections@;
    let entries = disk.manifest.entries;
    let floor = end.manifest.last_flushed_lsn;
    let n = plan.at@.len();
    lemma_flush_places(db, plan, next_lsn, kernel);
    assert forall|j: int| 0 <= j < n implies entry_at(
        entries,
        colls[(#[trigger] plan.at@[j]) as int].name@,
    ) < entries.len() by {
        assert(is_stored(disk, colls[plan.at@[j] as int]));
    }
    lemma_names_stay(entries, colls, plan.at@, db.next_seg_id, n);
    assert forall|i: int| 0 <= i < end.log.len() implies (#[trigger] end.log[i]).lsn <= floor by {
        assert(disk.log[i].lsn < next_lsn);
    }
    assert forall|name: Seq<char>| #[trigger]
        db.kept(name) is Some <==> entry_at(end.manifest.entries, name)
            < end.manifest.entries.len() by {
        assert(db.kept(name) is Some <==> entry_at(entries, name) < entries.len());
        assert(entry_at(end.manifest.entries, name) == entry_at(entries, name));
    }
    assert forall|name: Seq<char>| #[trigger] orderly(end.base(name), end.log, floor, name) by {
        lemma_below_floor(end.base(name), end.log, floor, name);
    }
    assert forall|name: Seq<char>| #[trigger]
        settled_kept(end.recovered(name)) == settled_kept(db.kept(name)) by {
        law_floor_is_skipped(end.base(name), end.log, floor, name);
        lemma_kept_none(colls, name);
        lemma_coll_from(colls, name, 0);
        assert(db.kept(name) is Some <==> entry_at(end.manifest.entries, name)
            < end.manifest.entries.len());
        if db.kept(name) is Some {
            lemma_flushed_at(db, disk, end, plan, next_lsn, kernel, coll_at(colls, name));
        }
    }
    lemma_flushed_tidy(db, disk, end, plan, next_lsn, kernel);
}

/// What is stored once a flush is in the manifest hangs together.
#[verifier::spinoff_prover]
#[verifier::rlimit(60)]
proof fn lemma_flushed_tidy<N, S>(
    db: Database,
    disk: Disk,
    end: Disk,
    plan: FlushPlan,
    next_lsn: u64,
    kernel: Kernel<N, S>,
) where N: Fn(&[u32]) -> u32, S: Fn(Metric, &[u32], u32, &[u32], u32) -> u32
    requires
        durable(db, disk, next_lsn),
        db.flush_planned(plan, next_lsn, kernel),
        db.next_seg_id + db.collections@.len() <= u64::MAX,
        plan.at@.len() <= db.collections@.len(),
        end.manifest == plan.manifest@,
        end.log == disk.log || end.log == Seq::<RecordView>::empty(),
        forall|num: u64|
            num < db.next_seg_id ==> (#[trigger] end.segs.contains_key(num)
                <==> disk.segs.contains_key(num)) && end.segs[num] == disk.segs[num],
        stored_from(end, plan.segs@, db.next_seg_id, plan.at@.len()),
    ensures
        tidy(end),
{
    let colls = db.collections@;
    let old_entries = disk.manifest.entries;
    let entries = end.manifest.entries;
    let first = db.next_seg_id;
    let n = plan.at@.len();
    let lists = Seq::new(colls.len(), |i: int| flushed_segs(db, plan, i));
    lemma_flush_places(db, plan, next_lsn, kernel);
    assert forall|j: int| 0 <= j < n implies entry_at(
        old_entries,
        colls[(#[trigger] plan.at@[j]) as int].name@,
    ) < old_entries.len() by {
        assert(is_stored(disk, colls[plan.at@[j] as int]));
    }
    lemma_names_stay(old_entries, colls, plan.at@, first, n);
    lemma_names_kept(old_entries, entries);
    assert forall|i: int| 0 <= i < colls.len() implies ({
        let e = entry_at(entries, colls[i].name@);
        &&& e < entries.len()
        &&& entries[e].segments == numbers(#[trigger] lists[i])
        &&& forall|j: int|
            0 <= j < lists[i].len() ==> (#[trigger] lists[i][j]).valid() && end.segs.contains_key(
                lists[i][j].number(),
            ) && on_disk(end.segs[lists[i][j].number()], lists[i][j])
    }) by {
        let segs = flushed_segs(db, plan, i);
        assert(lists[i] == segs);
        lemma_flushed_at(db, disk, end, plan, next_lsn, kernel, i);
        assert forall|j: int| 0 <= j < lists[i].len() implies (#[trigger] lists[i][j]).valid()
            && end.segs.contains_key(lists[i][j].number()) && on_disk(
            end.segs[lists[i][j].number()],
            lists[i][j],
        ) by {
            assert(segs[j].valid());
        }
    }
    assert forall|e: int| 0 <= e < entries.len() implies lists_entry(
        db,
        #[trigger] entries[e],
        lists,
    ) by {
        assert(entries[e].name == old_entries[e].name);
        lemma_entry_stored(db, disk, e);
        let i = coll_at(colls, old_entries[e].name);
        assert(entries[entry_at(entries, colls[i].name@)].segments == numbers(lists[i]));
        lemma_entry_from(entries, entries[e].name, 0);
        let x = entry_at(entries, entries[e].name);
        if x < e {
            assert(entries[x].name != entries[e].name);
        }
    }
    assert(lists_stored(end, lists));
    assert forall|i: int| 0 <= i < lists.len() implies disjoint(#[trigger] lists[i]) by {
        let c = colls[i];
        assert(c.view.apart());
        assert(c.valid());
        if plan.at@.contains(i as usize) {
            let x = plan.at@.index_of(i as usize);
            let old_segs = c.view.immutables@;
            let segs = lists[i];
            assert(plan.at@[x] == i as usize);
            assert(plan.segs@[x].live() == settled_live(c.view.mutable.live()));
            assert forall|j: int, k: int, id: IdView|
                #![trigger segs[j].live().contains_key(id), segs[k].live().contains_key(id)]
                0 <= j < k < segs.len() && segs[j].live().contains_key(id) implies !segs[
            k].live().contains_key(id) by {
                assert(segs[j] == old_segs[j]);
                assert(old_segs[j].live().contains_key(id));
                if k < old_segs.len() {
                    assert(segs[k] == old_segs[k]);
                    assert(!old_segs[k].live().contains_key(id));
                } else {
                    assert(segs[k] == plan.segs@[x]);
                    assert(!c.view.mutable.index().contains_key(id));
                }
            }
        }
    }
    assert(numbers_differ(lists)) by {
        assert forall|i: int, j: int|
            0 <= i < lists.len() && 0 <= j < lists[i].len() implies (has_seg(db, i, j) && (
        #[trigger] lists[i][j]).number() == seg_number(db, i, j)) || (plan.at@.contains(i as usize)
            && j == colls[i].view.immutables@.len() && lists[i][j].number() == first
            + plan.at@.index_of(i as usize)) by {
            if j >= colls[i].view.immutables@.len() {
                let x = plan.at@.index_of(i as usize);
                assert(plan.at@[x] == i as usize);
                assert(plan.segs@[x].number() == (first + x) as u64);
                assert(lists[i][j] == plan.segs@[x]);
                assert(first + x <= u64::MAX);
            } else {
                assert(lists[i][j] == colls[i].view.immutables@[j]);
            }
        }
        assert forall|i: int, j: int, x: int, y: int|
            #![trigger lists[i][j], lists[x][y]]
            0 <= i < lists.len() && 0 <= j < lists[i].len() && 0 <= x < lists.len() && 0 <= y
                < lists[x].len() && lists[i][j].number() == lists[x][y].number() implies i == x && j
            == y by {
            if has_seg(db, i, j) && lists[i][j].number() == seg_number(db, i, j) {
                assert(seg_number(db, i, j) < first);
            } else {
                let a = plan.at@.index_of(i as usize);
                assert(plan.at@[a] == i as usize);
            }
            if has_seg(db, x, y) && lists[x][y].number() == seg_number(db, x, y) {
                assert(seg_number(db, x, y) < first);
            } else {
                let b = plan.at@.index_of(x as usize);
                assert(plan.at@[b] == x as usize);
            }
        }
    }
    lemma_tidy_of(db, end, lists);
}

proof fn lemma_below_floor(k: Option<Kept>, records: Seq<RecordView>, floor: u64, name: Seq<char>)
    requires
        forall|i: int| 0 <= i < records.len() ==> (#[trigger] records[i]).lsn <= floor,
    ensures
        orderly(k, records, floor, name),
    decreases records.len(),
{
    if records.len() > 0 {
        let rest = records.drop_last();
        assert(records[records.len() - 1].lsn <= floor);
        assert forall|i: int| 0 <= i < rest.len() implies (#[trigger] rest[i]).lsn <= floor by {
            assert(records[i].lsn <= floor);
        }
        lemma_below_floor(k, rest, floor, name);
    }
}

/// A flush survives a crash, whichever of its steps were performed by then: opening the
/// database succeeds, and gives back what was kept. Until the manifest is saved, the log
/// still has everything; from then on the new segments have it, whether the log was emptied
/// or not.
pub proof fn law_flush_survives<N, S>(
    db: Database,
    disk: Disk,
    plan: FlushPlan,
    next_lsn: u64,
    kernel: Kernel<N, S>,
    k: int,
) where N: Fn(&[u32]) -> u32, S: Fn(Metric, &[u32], u32, &[u32], u32) -> u32
    requires
        durable(db, disk, next_lsn),
        next_lsn > 0,
        db.flush_planned(plan, next_lsn, kernel),
        db.next_seg_id + db.collections@.len() <= u64::MAX,
        0 <= k <= plan.steps@.len(),
    ensures
        gives_back(disk.performed_all(plan.steps@.take(k)), db),
{
    lemma_flush_steps(db, disk, plan, next_lsn, kernel, k);
    let end = disk.performed_all(plan.steps@.take(k));
    if k <= plan.steps@.len() - 2 {
        assert forall|num: u64| num < db.next_seg_id implies (#[trigger] end.segs.contains_key(num)
            <==> disk.segs.contains_key(num)) && end.segs[num] == disk.segs[num] by {}
        lemma_unnoticed(db, disk, end, next_lsn);
    } else {
        lemma_flushed_back(db, disk, end, plan, next_lsn, kernel);
    }
}

/// What is stored while a flush is carried out.
proof fn lemma_flush_steps<N, S>(
    db: Database,
    disk: Disk,
    plan: FlushPlan,
    next_lsn: u64,
    kernel: Kernel<N, S>,
    k: int,
) where N: Fn(&[u32]) -> u32, S: Fn(Metric, &[u32], u32, &[u32], u32) -> u32
    requires
        db.valid(),
        db.flush_planned(plan, next_lsn, kernel),
        db.next_seg_id + db.collections@.len() <= u64::MAX,
        0 <= k <= plan.steps@.len(),
    ensures
        ({
            let end = disk.performed_all(plan.steps@.take(k));
            let n = plan.at@.len();
            let first = db.next_seg_id;
            &&& n <= db.collections@.len()
            &&& k <= plan.steps@.len() - 2 ==> same_but(disk, end, first as int, first + n)
            &&& k > plan.steps@.len() - 2 ==> {
                &&& end.manifest == plan.manifest@
                &&& end.log == (if k == plan.steps@.len() {
                    Seq::<RecordView>::empty()
                } else {
                    disk.log
                })
                &&& forall|num: u64|
                    num < first ==> (#[trigger] end.segs.contains_key(num)
                        <==> disk.segs.contains_key(num)) && end.segs[num] == disk.segs[num]
                &&& stored_from(end, plan.segs@, first, n)
            }
        }),
{
    let steps = plan.steps@;
    let n = plan.at@.len();
    let first = db.next_seg_id;
    let colls = db.collections@;
    let head = steps.take(steps.len() - 2);
    lemma_flush_places(db, plan, next_lsn, kernel);
    let order = choose|order: Seq<usize>| #[trigger]
        by_name(colls, order) && order.len() == colls.len() && plan.at@ == unflushed(
            colls,
            order,
            order.len(),
        );
    lemma_unflushed(colls, order, order.len());
    if k <= steps.len() - 2 {
        assert(head.take(k) =~= steps.take(k));
        lemma_all_written(disk, colls, plan.at@, first, plan.segs@, head, kernel, n, k);
    } else {
        lemma_all_written(
            disk,
            colls,
            plan.at@,
            first,
            plan.segs@,
            head,
            kernel,
            n,
            head.len() as int,
        );
        assert(head.take(head.len() as int) =~= head);
        let mid = disk.performed_all(head);
        let saved = steps.take(steps.len() - 1);
        assert(saved.drop_last() =~= head);
        assert(saved.last() == steps[steps.len() - 2]);
        let next = disk.performed_all(saved);
        assert(next == mid.performed(steps[steps.len() - 2]));
        assert(next.segs == mid.segs);
        if k == steps.len() {
            assert(steps.take(k) =~= steps);
            assert(steps.drop_last() =~= saved);
            assert(steps.last() == steps[steps.len() - 1]);
            assert(disk.performed_all(steps) == next.performed(steps[steps.len() - 1]));
        }
        let end = disk.performed_all(steps.take(k));
        assert(end.segs == mid.segs);
        assert forall|j: int| 0 <= j < n implies #[trigger] stored_at(
            end,
            plan.segs@,
            first,
            j,
        ) by {
            assert(stored_at(mid, plan.segs@, first, j));
        }
    }
}

/// Once a flush was carried out, everything that the database keeps is stored in segments.
#[verifier::spinoff_prover]
#[verifier::rlimit(50)]
pub proof fn law_flush_is_durable<N, S>(
    db: Database,
    mid: Database,
    after: Database,
    disk: Disk,
    plan: FlushPlan,
    next_lsn: u64,
    kernel: Kernel<N, S>,
) where N: Fn(&[u32]) -> u32, S: Fn(Metric, &[u32], u32, &[u32], u32) -> u32
    requires
        durable(db, disk, next_lsn),
        next_lsn > 0,
        db.flush_planned(plan, next_lsn, kernel),
        db.next_seg_id + db.collections@.len() <= u64::MAX,
        db.only_numbers(mid),
        mid.next_seg_id == db.next_seg_id + plan.at@.len(),
        mid.flush_committed(after, plan),
        keeps_same(mid, after),
        after.valid(),
        after.apart(),
    ensures
        durable(after, disk.performed_all(plan.steps@), next_lsn),
{
    let steps = plan.steps@;
    let end = disk.performed_all(steps);
    let colls = db.collections@;
    let first = db.next_seg_id;
    let n = plan.at@.len();
    assert(steps.take(steps.len() as int) =~= steps);
    lemma_flush_steps(db, disk, plan, next_lsn, kernel, steps.len() as int);
    assert forall|num: u64| num < first implies (#[trigger] end.segs.contains_key(num)
        <==> disk.segs.contains_key(num)) && end.segs[num] == disk.segs[num] by {
        assert(steps.take(steps.len() as int) == steps);
    }
    assert(stored_from(end, plan.segs@, first, n));
    lemma_flushed_back(db, disk, end, plan, next_lsn, kernel);
    lemma_flush_places(db, plan, next_lsn, kernel);
    assert(names_differ(end.manifest.entries)) by {
        let old_entries = db.manifest@.entries;
        assert forall|j: int| 0 <= j < n implies entry_at(
            old_entries,
            colls[(#[trigger] plan.at@[j]) as int].name@,
        ) < old_entries.len() by {
            assert(is_stored(disk, colls[plan.at@[j] as int]));
        }
        lemma_names_stay(old_entries, colls, plan.at@, first, n);
        lemma_names_kept(old_entries, end.manifest.entries);
    }
    assert forall|i: int| 0 <= i < colls.len() implies same_segs(
        #[trigger] after.collections@[i],
        colls[i],
        flushed_segs(db, plan, i),
    ) by {
        if plan.at@.contains(i as usize) {
            let j = plan.at@.index_of(i as usize);
            assert(plan.at@[j] == i as usize);
            assert(flushed_to(
                mid.collections@[plan.at@[j] as int],
                after.collections@[plan.at@[j] as int],
                plan.segs@[j],
            ));
        } else {
            assert(after.collections@[(i as usize) as int] == mid.collections@[(i as usize) as int]);
        }
    }
    assert forall|i: int| 0 <= i < after.collections@.len() implies is_stored(
        end,
        #[trigger] after.collections@[i],
    ) by {
        assert(same_segs(after.collections@[i], colls[i], flushed_segs(db, plan, i)));
        lemma_flushed_at(db, disk, end, plan, next_lsn, kernel, i);
    }
    // A segment of a collection is one of before, or the new one of that collection.
    assert forall|i: int, j: int| #[trigger] has_seg(after, i, j) implies (has_seg(db, i, j)
        && seg_number(after, i, j) == seg_number(db, i, j)) || (plan.at@.contains(i as usize) && j
        == colls[i].view.immutables@.len() && seg_number(after, i, j) == first
        + plan.at@.index_of(i as usize)) by {
        assert(same_segs(after.collections@[i], colls[i], flushed_segs(db, plan, i)));
        if j >= colls[i].view.immutables@.len() {
            let x = plan.at@.index_of(i as usize);
            assert(plan.at@[x] == i as usize);
            assert(plan.segs@[x].number() == (first + x) as u64);
        }
    }
    assert(numbered(after)) by {
        assert forall|i: int, j: int, x: int, y: int| #[trigger]
            has_seg(after, i, j) && #[trigger] has_seg(after, x, y) && seg_number(after, i, j)
                == seg_number(after, x, y) implies i == x && j == y by {
            if has_seg(db, i, j) && has_seg(db, x, y) && seg_number(after, i, j) == seg_number(
                db,
                i,
                j,
            ) && seg_number(after, x, y) == seg_number(db, x, y) {
            } else {
                if plan.at@.contains(i as usize) {
                    let a = plan.at@.index_of(i as usize);
                    assert(plan.at@[a] == i as usize);
                }
                if plan.at@.contains(x as usize) {
                    let b = plan.at@.index_of(x as usize);
                    assert(plan.at@[b] == x as usize);
                }
            }
        }
        assert forall|i: int, j: int| #[trigger] has_seg(after, i, j) implies seg_number(
            after,
            i,
            j,
        ) < after.next_seg_id by {
            if plan.at@.contains(i as usize) {
                let a = plan.at@.index_of(i as usize);
                assert(plan.at@[a] == i as usize);
            }
        }
    }
    assert forall|name: Seq<char>| #[trigger]
        after.kept(name) is Some <==> entry_at(end.manifest.entries, name)
            < end.manifest.entries.len() by {
        assert(settled_kept(after.kept(name)) == settled_kept(mid.kept(name)));
        assert(db.kept(name) is Some <==> entry_at(end.manifest.entries, name)
            < end.manifest.entries.len());
    }
    assert forall|name: Seq<char>| #[trigger]
        settled_kept(end.recovered(name)) == settled_kept(after.kept(name)) by {
        assert(settled_kept(after.kept(name)) == settled_kept(mid.kept(name)));
        assert(settled_kept(end.recovered(name)) == settled_kept(db.kept(name)));
    }
}

/// Whether a collection is another one with other immutable segments.
spec fn same_segs(a: Collection, b: Collection, segs: Seq<ImmutableSegment>) -> bool {
    a.name == b.name && a.config == b.config && a.view.immutables@ == segs
}

} // verus!
