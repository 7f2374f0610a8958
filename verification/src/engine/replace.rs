//! That compacting a collection and rebuilding a segment survive a crash.

use vstd::prelude::*;

use crate::engine::apply::same_but_view;
use crate::engine::database::{
    coll_at, lemma_coll_at, lemma_coll_from, lemma_kept_none, Database, Step,
};
use crate::engine::disk::{lemma_agree_settled, lemma_performed_parts, on_disk, stacked, Disk};
use crate::engine::durable::{
    all_segments, ascending, durable, gives_back, has_seg, is_stored, lemma_base,
    lemma_distinct_in, lemma_entry_stored, lemma_presence, lemma_stacked_equal, lemma_tidy_of,
    lists_entry, numbered, seg_number, stored, tidy,
};
use crate::engine::open::numbers_differ;
use crate::engine::outcome::{agree, law_replay_again, law_replay_settles, orderly, settled_kept};
use crate::engine::outlast::{lemma_all_stacked, lemma_unnoticed, lemma_written, same_but};
use crate::engine::merge::made;
use crate::engine::plan::{keeps_same, lemma_same_places, stores_segment};
use crate::engine::renew::{
    all_but, exchanged, first_from, lemma_compact_suits, lemma_rebuild_suits, made_if_any,
    number_of, numbers, removes, renews, with_list, RenewPlan,
};
use crate::engine::survive::lemma_removed;
use crate::engine::view::{disjoint, layered};
use crate::collection::CollectionConfig;
use crate::id::IdView;
use crate::kernel::{Kernel, Metric};
use crate::manifest::{entry_at, lemma_entry_from, lemma_names_kept, names_differ};
use crate::segment::immutable::{settled_live, ImmutableSegment};
use crate::segment::mutable::MutableSegment;
use crate::segment::Entry;
use crate::VERSION;

verus! {

/// What is stored while new segments take the place of others.
proof fn lemma_renew_steps<N, S>(
    disk: Disk,
    plan: RenewPlan,
    config: CollectionConfig,
    id: u64,
    m: MutableSegment,
    gone: Seq<u64>,
    kernel: Kernel<N, S>,
    k: int,
) where N: Fn(&[u32]) -> u32, S: Fn(Metric, &[u32], u32, &[u32], u32) -> u32
    requires
        m.valid(),
        made_if_any(plan.seg, config, id, m, kernel),
        renews(plan.steps@, plan.seg, id, m, plan.manifest@, gone),
        !gone.contains(id),
        0 <= k <= plan.steps@.len(),
    ensures
        ({
            let end = disk.performed_all(plan.steps@.take(k));
            let save = plan.steps@.len() - gone.len() - 1;
            &&& k <= save ==> same_but(disk, end, id as int, id + 1)
            &&& k > save ==> {
                &&& end.manifest == plan.manifest@
                &&& end.log == disk.log
                &&& forall|num: u64| #[trigger]
                    disk.segs.contains_key(num) && num != id && !gone.contains(num)
                        ==> end.segs.contains_key(num) && end.segs[num] == disk.segs[num]
                &&& plan.seg is Some ==> end.segs.contains_key(id) && on_disk(
                    end.segs[id],
                    plan.seg->0,
                )
            }
        }),
{
    let steps = plan.steps@;
    let save = steps.len() - gone.len() - 1;
    let head = steps.take(save);
    if k <= save {
        assert(head.take(k) =~= steps.take(k));
        lemma_renew_head(disk, head, plan.seg, config, id, m, kernel, k);
    } else {
        assert(head.take(save) =~= head);
        lemma_renew_head(disk, head, plan.seg, config, id, m, kernel, save);
        lemma_renew_tail(disk, steps, save, gone, k);
        let mid = disk.performed_all(head);
        let end = disk.performed_all(steps.take(k));
        assert forall|num: u64| #[trigger]
            disk.segs.contains_key(num) && num != id && !gone.contains(
                num,
            ) implies end.segs.contains_key(num) && end.segs[num] == disk.segs[num] by {
            assert(mid.segs.contains_key(num) && mid.segs[num] == disk.segs[num]);
        }
    }
}

/// What is stored while the new segment is, if there is one.
proof fn lemma_renew_head<N, S>(
    disk: Disk,
    head: Seq<Step>,
    seg: Option<ImmutableSegment>,
    config: CollectionConfig,
    id: u64,
    m: MutableSegment,
    kernel: Kernel<N, S>,
    k: int,
) where N: Fn(&[u32]) -> u32, S: Fn(Metric, &[u32], u32, &[u32], u32) -> u32
    requires
        m.valid(),
        match seg {
            Some(s) => stores_segment(head, s, id, m) && made(s, config, id, m, kernel),
            None => head.len() == 0,
        },
        0 <= k <= head.len(),
    ensures
        same_but(disk, disk.performed_all(head.take(k)), id as int, id + 1),
        k == head.len() && seg is Some ==> disk.performed_all(head.take(k)).segs.contains_key(id)
            && on_disk(disk.performed_all(head.take(k)).segs[id], seg->0),
{
    match seg {
        Some(s) => {
            lemma_written(disk, head, s, id, m, config, kernel, k);
        },
        None => {
            assert(head.take(k) =~= Seq::<Step>::empty());
            assert(disk.performed_all(Seq::<Step>::empty()) == disk);
        },
    }
}

/// What is stored once the manifest is, and while segments are removed.
proof fn lemma_renew_tail(disk: Disk, steps: Seq<Step>, save: int, gone: Seq<u64>, k: int)
    requires
        save == steps.len() - gone.len() - 1,
        0 <= save < k <= steps.len(),
        steps[save] is SaveManifest,
        forall|j: int|
            0 <= j < gone.len() ==> #[trigger] removes(steps, save + 1 + j, gone[j]),
    ensures
        ({
            let mid = disk.performed_all(steps.take(save));
            let end = disk.performed_all(steps.take(k));
            &&& end.manifest == steps[save]->SaveManifest_0@
            &&& end.log == mid.log
            &&& forall|num: u64| #[trigger]
                mid.segs.contains_key(num) && !gone.contains(num) ==> end.segs.contains_key(num)
                    && end.segs[num] == mid.segs[num]
        }),
{
    let head = steps.take(save);
    let mid = disk.performed_all(head);
    let saved = steps.take(save + 1);
    assert(saved.drop_last() =~= head);
    assert(saved.last() == steps[save]);
    let next = disk.performed_all(saved);
    assert(next == mid.performed(steps[save]));
    lemma_performed_parts(disk, steps.take(k), save + 1);
    assert(steps.take(k).take(save + 1) =~= saved);
    let tail = steps.skip(save + 1);
    assert(steps.take(k).skip(save + 1) =~= tail.take(k - save - 1));
    assert forall|j: int| 0 <= j < tail.len() implies #[trigger] tail[j] == Step::RemoveSegment(
        gone[j],
    ) by {
        assert(removes(steps, save + 1 + j, gone[j]));
    }
    lemma_removed(next, gone, tail, k - save - 1);
    let end = disk.performed_all(steps.take(k));
    assert forall|num: u64| #[trigger]
        mid.segs.contains_key(num) && !gone.contains(num) implies end.segs.contains_key(num)
        && end.segs[num] == mid.segs[num] by {
        assert(next.segs.contains_key(num));
    }
}

/// Whether other segments of a collection are stored and in the manifest, and everything
/// else is as before.
spec fn replaced(
    db: Database,
    disk: Disk,
    end: Disk,
    at: int,
    segs: Seq<ImmutableSegment>,
) -> bool {
    let c = db.collections@[at];
    &&& 0 <= at < db.collections@.len()
    &&& end.log == disk.log
    &&& end.manifest == with_list(disk.manifest, c.name@, numbers(segs))
    &&& forall|i: int, j: int|
        #[trigger] has_seg(db, i, j) && i != at ==> end.segs.contains_key(seg_number(db, i, j))
            && end.segs[seg_number(db, i, j)] == disk.segs[seg_number(db, i, j)]
    &&& forall|j: int|
        0 <= j < segs.len() ==> (#[trigger] segs[j]).valid() && end.segs.contains_key(
            segs[j].number(),
        ) && on_disk(end.segs[segs[j].number()], segs[j])
}

/// What the manifest says once the segments of a collection are others.
proof fn lemma_with_list(db: Database, disk: Disk, at: int, segs: Seq<u64>, name: Seq<char>)
    requires
        stored(db, disk),
        0 <= at < db.collections@.len(),
    ensures
        ({
            let c = db.collections@[at];
            let before = disk.manifest.entries;
            let after = with_list(disk.manifest, c.name@, segs).entries;
            let e = entry_at(before, name);
            &&& after.len() == before.len()
            &&& entry_at(after, name) == e
            &&& 0 <= e <= before.len()
            &&& e < before.len() ==> after[e].config == before[e].config && after[e].segments == (
            if name == c.name@ {
                segs
            } else {
                before[e].segments
            })
        }),
{
    let c = db.collections@[at];
    let before = disk.manifest.entries;
    let after = with_list(disk.manifest, c.name@, segs).entries;
    assert(is_stored(disk, c));
    lemma_entry_from(before, c.name@, 0);
    lemma_entry_from(before, name, 0);
    lemma_same_places(before, after, name, 0);
}

/// What the segments of the other collections hold is as before.
proof fn lemma_replaced_others(
    db: Database,
    disk: Disk,
    end: Disk,
    at: int,
    segs: Seq<ImmutableSegment>,
    name: Seq<char>,
)
    requires
        stored(db, disk),
        replaced(db, disk, end, at, segs),
        name != db.collections@[at].name@,
    ensures
        end.base(name) == disk.base(name),
{
    let colls = db.collections@;
    lemma_kept_none(colls, name);
    lemma_coll_from(colls, name, 0);
    lemma_with_list(db, disk, at, numbers(segs), name);
    assert(db.kept(name) is Some <==> entry_at(disk.manifest.entries, name)
        < disk.manifest.entries.len());
    if db.kept(name) is Some {
        let i = coll_at(colls, name);
        let c = colls[i];
        assert(is_stored(disk, c));
        let ids = numbers(c.view.immutables@);
        assert forall|j: int| 0 <= j < ids.len() implies end.segs[#[trigger] ids[j]]
            == disk.segs[ids[j]] by {
            assert(has_seg(db, i, j));
            assert(seg_number(db, i, j) == ids[j]);
        }
        lemma_stacked_equal(end.segs, disk.segs, ids);
    }
}

/// Other segments that hold the same points are given back alike; and so are some that hold
/// what the log leads to.
proof fn lemma_replaced_back(
    db: Database,
    disk: Disk,
    end: Disk,
    next_lsn: u64,
    at: int,
    segs: Seq<ImmutableSegment>,
)
    requires
        durable(db, disk, next_lsn),
        replaced(db, disk, end, at, segs),
        ({
            let c = db.collections@[at];
            ||| settled_live(layered(segs)) == settled_live(c.view.contents())
            ||| settled_live(layered(segs)) == settled_live(layered(c.view.immutables@))
        }),
        disjoint(segs),
        forall|a: int, b: int|
            0 <= a < b < segs.len() ==> (#[trigger] segs[a]).number() != (
            #[trigger] segs[b]).number(),
        forall|j: int| 0 <= j < segs.len() ==> known(db, at, #[trigger] segs[j]),
    ensures
        gives_back(end, db),
{
    lemma_replaced_tidy(db, disk, end, at, segs);
    let c = db.collections@[at];
    let floor = disk.manifest.last_flushed_lsn;
    let name = c.name@;
    let old_base = disk.base(name);
    let base = end.base(name);
    lemma_base(db, disk, at);
    lemma_with_list(db, disk, at, numbers(segs), name);
    lemma_coll_at(db.collections@, at);
    assert(is_stored(disk, c));
    assert(c.valid());
    lemma_all_stacked(end, numbers(segs), segs);
    lemma_agree_settled(stacked(end.segs, numbers(segs)), layered(segs));
    assert(settled_kept(disk.recovered(name)) == settled_kept(db.kept(name)));
    assert(orderly(old_base, disk.log, floor, name));
    assert(base is Some && base->0.config == c.config);
    assert(settled_live(base->0.points) == settled_live(layered(segs)));
    lemma_presence(old_base, base, disk.log, floor, name);
    if settled_live(layered(segs)) == settled_live(c.view.contents()) {
        assert(settled_kept(base) == settled_kept(db.kept(name)));
        law_replay_again(old_base, disk.log, floor, name, base);
    } else {
        lemma_all_stacked(disk, numbers(c.view.immutables@), c.view.immutables@);
        lemma_agree_settled(
            stacked(disk.segs, numbers(c.view.immutables@)),
            layered(c.view.immutables@),
        );
        assert(settled_kept(base) == settled_kept(old_base));
        law_replay_settles(base, old_base, disk.log, floor, name);
    }
    assert forall|other: Seq<char>| #[trigger]
        orderly(end.base(other), end.log, end.manifest.last_flushed_lsn, other) by {
        assert(orderly(disk.base(other), disk.log, floor, other));
        if other != name {
            lemma_replaced_others(db, disk, end, at, segs, other);
        }
    }
    assert forall|other: Seq<char>| #[trigger]
        settled_kept(end.recovered(other)) == settled_kept(db.kept(other)) by {
        assert(settled_kept(disk.recovered(other)) == settled_kept(db.kept(other)));
        if other != name {
            lemma_replaced_others(db, disk, end, at, segs, other);
        }
    }
}

/// What is stored once other segments took the place of those of a collection hangs together.
proof fn lemma_replaced_tidy(
    db: Database,
    disk: Disk,
    end: Disk,
    at: int,
    segs: Seq<ImmutableSegment>,
)
    requires
        stored(db, disk),
        disk.manifest.version <= VERSION,
        ascending(disk.log),
        replaced(db, disk, end, at, segs),
        disjoint(segs),
        forall|a: int, b: int|
            0 <= a < b < segs.len() ==> (#[trigger] segs[a]).number() != (
            #[trigger] segs[b]).number(),
        forall|j: int| 0 <= j < segs.len() ==> known(db, at, #[trigger] segs[j]),
    ensures
        tidy(end),
{
    let colls = db.collections@;
    let old_entries = disk.manifest.entries;
    let entries = end.manifest.entries;
    let lists = all_segments(db).update(at, segs);
    let place = entry_at(old_entries, colls[at].name@);
    lemma_with_list(db, disk, at, numbers(segs), colls[at].name@);
    lemma_entry_from(old_entries, colls[at].name@, 0);
    assert(is_stored(disk, colls[at]));
    lemma_coll_at(colls, at);
    assert forall|e: int| 0 <= e < entries.len() implies (#[trigger] entries[e]).name
        == old_entries[e].name by {}
    lemma_names_kept(old_entries, entries);
    assert forall|e: int| 0 <= e < entries.len() implies lists_entry(
        db,
        #[trigger] entries[e],
        lists,
    ) by {
        lemma_entry_stored(db, disk, e);
        let i = coll_at(colls, old_entries[e].name);
        if e == place {
            assert(i == at);
        } else {
            assert(entries[e] == old_entries[e]);
            if i == at {
                if e < place {
                    assert(old_entries[e].name != old_entries[place].name);
                } else {
                    assert(old_entries[place].name != old_entries[e].name);
                }
            }
        }
    }
    assert forall|i: int, j: int| 0 <= i < lists.len() && 0 <= j < lists[i].len() implies (
    #[trigger] lists[i][j]).valid() && end.segs.contains_key(lists[i][j].number()) && on_disk(
        end.segs[lists[i][j].number()],
        lists[i][j],
    ) by {
        if i == at {
            assert(segs[j].valid());
        } else {
            let c = colls[i];
            assert(is_stored(disk, c));
            assert(c.valid());
            assert(has_seg(db, i, j));
            assert(seg_number(db, i, j) == lists[i][j].number());
            assert(c.view.immutables@[j] == lists[i][j]);
        }
    }
    assert forall|i: int| 0 <= i < lists.len() implies disjoint(#[trigger] lists[i]) by {
        if i != at {
            assert(colls[i].view.apart());
        }
    }
    assert(numbers_differ(lists)) by {
        assert forall|i: int, j: int|
            0 <= i < lists.len() && 0 <= j < lists[i].len() implies (i != at && has_seg(db, i, j)
            && (#[trigger] lists[i][j]).number() == seg_number(db, i, j)) || (i == at && known(
            db,
            at,
            lists[i][j],
        )) by {
            if i == at {
                assert(known(db, at, segs[j]));
            }
        }
        assert forall|i: int, j: int, x: int, y: int|
            #![trigger lists[i][j], lists[x][y]]
            0 <= i < lists.len() && 0 <= j < lists[i].len() && 0 <= x < lists.len() && 0 <= y
                < lists[x].len() && lists[i][j].number() == lists[x][y].number() implies i == x && j
            == y by {
            if i == at && x == at {
                if j < y {
                    assert(segs[j].number() != segs[y].number());
                } else if y < j {
                    assert(segs[y].number() != segs[j].number());
                }
            } else if i == at {
                lemma_known_apart(db, at, segs[j], x, y);
            } else if x == at {
                lemma_known_apart(db, at, segs[y], i, j);
            } else {
                assert(has_seg(db, i, j) && has_seg(db, x, y));
            }
        }
    }
    lemma_tidy_of(db, end, lists);
}

/// A segment that is one of a collection, or new, has no number of another collection.
proof fn lemma_known_apart(db: Database, at: int, seg: ImmutableSegment, x: int, y: int)
    requires
        numbered(db),
        known(db, at, seg),
        x != at,
        has_seg(db, x, y),
    ensures
        seg.number() != seg_number(db, x, y),
{
    assert(seg_number(db, x, y) < db.next_seg_id);
    if seg.number() != db.next_seg_id {
        let j = choose|j: int|
            has_seg(db, at, j) && #[trigger] seg_number(db, at, j) == seg.number();
        assert(has_seg(db, at, j));
    }
}

/// Whether a new segment is one of before, or the new one.
spec fn known(db: Database, at: int, seg: ImmutableSegment) -> bool {
    seg.number() == db.next_seg_id || exists|j: int|
        has_seg(db, at, j) && #[trigger] seg_number(db, at, j) == seg.number()
}

/// Once other segments took their place in memory too, everything is stored.
proof fn lemma_replaced_durable(
    db: Database,
    after: Database,
    disk: Disk,
    end: Disk,
    next_lsn: u64,
    at: int,
    segs: Seq<ImmutableSegment>,
)
    requires
        durable(db, disk, next_lsn),
        replaced(db, disk, end, at, segs),
        gives_back(end, db),
        after.manifest@ == end.manifest,
        after.collections@ == db.collections@.update(at, after.collections@[at]),
        same_but_view(db.collections@[at], after.collections@[at]),
        after.collections@[at].view.immutables@ == segs,
        after.next_seg_id >= db.next_seg_id,
        forall|a: int, b: int|
            0 <= a < b < segs.len() ==> (#[trigger] segs[a]).number() != (
            #[trigger] segs[b]).number(),
        forall|j: int| 0 <= j < segs.len() ==> known(db, at, #[trigger] segs[j]),
        forall|j: int|
            0 <= j < segs.len() ==> (#[trigger] segs[j]).number() < after.next_seg_id,
        keeps_same(db, after),
        after.valid(),
        after.apart(),
    ensures
        durable(after, end, next_lsn),
{
    let colls = db.collections@;
    let c = colls[at];
    let new = after.collections@[at];
    assert(names_differ(end.manifest.entries)) by {
        assert(is_stored(disk, colls[at]));
        lemma_entry_from(disk.manifest.entries, c.name@, 0);
        lemma_names_kept(disk.manifest.entries, end.manifest.entries);
    }
    assert forall|i: int| 0 <= i < after.collections@.len() implies is_stored(
        end,
        #[trigger] after.collections@[i],
    ) by {
        let d = after.collections@[i];
        assert(is_stored(disk, colls[i]));
        lemma_with_list(db, disk, at, numbers(segs), d.name@);
        if i != at {
            assert(d == colls[i]);
            assert(d.name@ != c.name@) by {
                lemma_coll_at(colls, i);
                lemma_coll_at(colls, at);
            }
            assert forall|j: int| 0 <= j < d.view.immutables@.len() implies end.segs.contains_key(
                (#[trigger] d.view.immutables@[j]).number(),
            ) && on_disk(end.segs[d.view.immutables@[j].number()], d.view.immutables@[j]) by {
                assert(has_seg(db, i, j));
                assert(seg_number(db, i, j) == d.view.immutables@[j].number());
            }
        }
    }
    assert forall|i: int, j: int| #[trigger] has_seg(after, i, j) && i != at implies has_seg(
        db,
        i,
        j,
    ) && seg_number(after, i, j) == seg_number(db, i, j) by {
        assert(after.collections@[i] == colls[i]);
    }
    assert(numbered(after)) by {
        assert forall|i: int, j: int, x: int, y: int| #[trigger]
            has_seg(after, i, j) && #[trigger] has_seg(after, x, y) && seg_number(after, i, j)
                == seg_number(after, x, y) implies i == x && j == y by {
            if i == at && x == at {
                if j < y {
                    assert(segs[j].number() != segs[y].number());
                } else if y < j {
                    assert(segs[y].number() != segs[j].number());
                }
            } else if i == at {
                assert(known(db, at, segs[j]));
                assert(has_seg(db, x, y));
            } else if x == at {
                assert(known(db, at, segs[y]));
                assert(has_seg(db, i, j));
            } else {
                assert(has_seg(db, i, j) && has_seg(db, x, y));
            }
        }
        assert forall|i: int, j: int| #[trigger] has_seg(after, i, j) implies seg_number(
            after,
            i,
            j,
        ) < after.next_seg_id by {
            if i == at {
                assert(segs[j].number() < after.next_seg_id);
            } else {
                assert(has_seg(db, i, j));
            }
        }
    }
    assert forall|name: Seq<char>| #[trigger]
        after.kept(name) is Some <==> entry_at(end.manifest.entries, name)
            < end.manifest.entries.len() by {
        assert(settled_kept(after.kept(name)) == settled_kept(db.kept(name)));
        assert(db.kept(name) is Some <==> entry_at(disk.manifest.entries, name)
            < disk.manifest.entries.len());
        lemma_with_list(db, disk, at, numbers(segs), name);
    }
    assert forall|name: Seq<char>| #[trigger]
        settled_kept(end.recovered(name)) == settled_kept(after.kept(name)) by {
        assert(settled_kept(after.kept(name)) == settled_kept(db.kept(name)));
        assert(settled_kept(end.recovered(name)) == settled_kept(db.kept(name)));
    }
}

// ------------------------------------------------------------ compacting

/// The segments of a collection once it is compacted.
spec fn compacted_segs(plan: RenewPlan) -> Seq<ImmutableSegment> {
    match plan.seg {
        Some(s) => seq![s],
        None => Seq::empty(),
    }
}

/// What is stored while a collection is compacted.
proof fn lemma_compacting<N, S>(
    db: Database,
    disk: Disk,
    name: Seq<char>,
    plan: RenewPlan,
    kernel: Kernel<N, S>,
    m: MutableSegment,
    next_lsn: u64,
    k: int,
) where N: Fn(&[u32]) -> u32, S: Fn(Metric, &[u32], u32, &[u32], u32) -> u32
    requires
        durable(db, disk, next_lsn),
        db.compact_planned(name, plan, kernel, m),
        0 <= k <= plan.steps@.len(),
    ensures
        gives_back(disk.performed_all(plan.steps@.take(k)), db),
        k == plan.steps@.len() ==> replaced(
            db,
            disk,
            disk.performed_all(plan.steps@),
            plan.at as int,
            compacted_segs(plan),
        ),
{
    let at = plan.at as int;
    let c = db.collections@[at];
    let id = db.next_seg_id;
    let gone = numbers(c.view.immutables@);
    let end = disk.performed_all(plan.steps@.take(k));
    let segs = compacted_segs(plan);
    assert(!gone.contains(id)) by {
        if gone.contains(id) {
            let j = choose|j: int| 0 <= j < gone.len() && gone[j] == id;
            assert(has_seg(db, at, j));
            assert(seg_number(db, at, j) < id);
        }
    }
    lemma_coll_from(db.collections@, name, 0);
    lemma_renew_steps(disk, plan, c.config, id, m, gone, kernel, k);
    if k <= plan.steps@.len() - gone.len() - 1 {
        assert forall|num: u64| num < db.next_seg_id implies (#[trigger] end.segs.contains_key(num)
            <==> disk.segs.contains_key(num)) && end.segs[num] == disk.segs[num] by {}
        lemma_unnoticed(db, disk, end, next_lsn);
    } else {
        lemma_compact_suits(db, name, plan, kernel, m);
        assert(numbers(segs) =~= number_of(plan.seg, id));
        assert(replaced(db, disk, end, at, segs)) by {
            assert forall|i: int, j: int|
                #[trigger] has_seg(db, i, j) && i != at implies end.segs.contains_key(
                seg_number(db, i, j),
            ) && end.segs[seg_number(db, i, j)] == disk.segs[seg_number(db, i, j)] by {
                let num = seg_number(db, i, j);
                assert(is_stored(disk, db.collections@[i]));
                assert(disk.segs.contains_key(db.collections@[i].view.immutables@[j].number()));
                if gone.contains(num) {
                    let y = choose|y: int| 0 <= y < gone.len() && gone[y] == num;
                    assert(has_seg(db, at, y));
                    assert(seg_number(db, at, y) == num);
                }
            }
        }
        assert(settled_live(layered(segs)) == settled_live(c.view.contents())) by {
            reveal_with_fuel(layered, 2);
            if plan.seg is Some {
                assert(segs.drop_last() =~= Seq::<ImmutableSegment>::empty());
                assert(layered(segs) =~= plan.seg->0.live());
                assert(settled_live(settled_live(c.view.contents())) =~= settled_live(
                    c.view.contents(),
                ));
            } else {
                assert(layered(segs) =~= c.view.contents());
            }
        }
        assert forall|j: int| 0 <= j < segs.len() implies known(db, at, #[trigger] segs[j]) by {}
        lemma_replaced_back(db, disk, end, next_lsn, at, segs);
        if k == plan.steps@.len() {
            assert(plan.steps@.take(k) =~= plan.steps@);
        }
    }
}

/// Compacting a collection survives a crash, whichever of its steps were performed by then:
/// opening the database succeeds, and gives back what was kept.
pub proof fn law_compact_survives<N, S>(
    db: Database,
    disk: Disk,
    name: Seq<char>,
    plan: RenewPlan,
    kernel: Kernel<N, S>,
    m: MutableSegment,
    next_lsn: u64,
    k: int,
) where N: Fn(&[u32]) -> u32, S: Fn(Metric, &[u32], u32, &[u32], u32) -> u32
    requires
        durable(db, disk, next_lsn),
        db.compact_planned(name, plan, kernel, m),
        0 <= k <= plan.steps@.len(),
    ensures
        gives_back(disk.performed_all(plan.steps@.take(k)), db),
{
    lemma_compacting(db, disk, name, plan, kernel, m, next_lsn, k);
}

/// Once a collection was compacted, everything that the database keeps is stored.
pub proof fn law_compact_is_durable<N, S>(
    db: Database,
    mid: Database,
    after: Database,
    disk: Disk,
    name: Seq<char>,
    plan: RenewPlan,
    kernel: Kernel<N, S>,
    m: MutableSegment,
    next_lsn: u64,
) where N: Fn(&[u32]) -> u32, S: Fn(Metric, &[u32], u32, &[u32], u32) -> u32
    requires
        durable(db, disk, next_lsn),
        db.compact_planned(name, plan, kernel, m),
        db.took(mid, plan.seg),
        mid.compact_committed(after, plan),
        keeps_same(mid, after),
        after.valid(),
        after.apart(),
    ensures
        durable(after, disk.performed_all(plan.steps@), next_lsn),
{
    let steps = plan.steps@;
    let end = disk.performed_all(steps);
    let segs = compacted_segs(plan);
    assert(steps.take(steps.len() as int) =~= steps);
    lemma_compacting(db, disk, name, plan, kernel, m, next_lsn, steps.len() as int);
    assert forall|x: Seq<char>| #[trigger] settled_kept(after.kept(x)) == settled_kept(
        db.kept(x),
    ) by {
        assert(settled_kept(after.kept(x)) == settled_kept(mid.kept(x)));
    }
    lemma_coll_from(db.collections@, name, 0);
    lemma_renewed_manifest(
        disk,
        plan,
        db.next_seg_id,
        m,
        numbers(db.collections@[plan.at as int].view.immutables@),
    );
    lemma_replaced_durable(db, after, disk, end, next_lsn, plan.at as int, segs);
}

/// At the end, the manifest is the new one.
proof fn lemma_renewed_manifest(
    disk: Disk,
    plan: RenewPlan,
    id: u64,
    m: MutableSegment,
    gone: Seq<u64>,
)
    requires
        renews(plan.steps@, plan.seg, id, m, plan.manifest@, gone),
    ensures
        disk.performed_all(plan.steps@).manifest == plan.manifest@,
{
    let steps = plan.steps@;
    assert(steps.take(steps.len() as int) =~= steps);
    lemma_renew_tail(disk, steps, steps.len() - gone.len() - 1, gone, steps.len() as int);
}

// ------------------------------------------------------------ rebuilding

/// Where a number stands first.
proof fn lemma_first(s: Seq<u64>, x: u64, p: int, i: int)
    requires
        0 <= i <= p < s.len(),
        s[p] == x,
        forall|q: int| 0 <= q < p ==> #[trigger] s[q] != x,
    ensures
        first_from(s, x, i) == p,
    decreases p - i,
{
    if i < p {
        assert(s[i] != x);
        lemma_first(s, x, p, i + 1);
    }
}

/// A list of different numbers without one of them.
proof fn lemma_all_but(s: Seq<u64>, p: int)
    requires
        0 <= p < s.len(),
        forall|a: int, b: int| 0 <= a < b < s.len() ==> #[trigger] s[a] != #[trigger] s[b],
    ensures
        all_but(s, s[p]) == s.remove(p),
    decreases s.len(),
{
    let rest = s.drop_last();
    assert forall|a: int, b: int| 0 <= a < b < rest.len() implies #[trigger] rest[a]
        != #[trigger] rest[b] by {
        assert(s[a] != s[b]);
    }
    if p == s.len() - 1 {
        assert forall|q: int| 0 <= q < rest.len() implies #[trigger] rest[q] != s[p] by {
            assert(s[q] != s[p]);
        }
        lemma_all_there(rest, s[p]);
        assert(s.remove(p) =~= rest);
    } else {
        assert(rest[p] == s[p]);
        assert(s[p] != s[s.len() - 1]);
        lemma_all_but(rest, p);
        assert(s.remove(p) =~= rest.remove(p).push(s.last()));
    }
}

proof fn lemma_all_there(s: Seq<u64>, x: u64)
    requires
        forall|q: int| 0 <= q < s.len() ==> #[trigger] s[q] != x,
    ensures
        all_but(s, x) == s,
    decreases s.len(),
{
    if s.len() > 0 {
        let rest = s.drop_last();
        assert(s[s.len() - 1] != x);
        assert forall|q: int| 0 <= q < rest.len() implies #[trigger] rest[q] != x by {
            assert(s[q] != x);
        }
        lemma_all_there(rest, x);
        assert(rest.push(s.last()) =~= s);
    }
}

/// Segments that agree on a point layer what agrees on it.
proof fn lemma_layered_agree(a: Seq<ImmutableSegment>, b: Seq<ImmutableSegment>, id: IdView)
    requires
        a.len() == b.len(),
        forall|j: int| 0 <= j < a.len() ==> agree((#[trigger] a[j]).live(), b[j].live(), id),
    ensures
        agree(layered(a), layered(b), id),
    decreases a.len(),
{
    if a.len() > 0 {
        let x = a.drop_last();
        let y = b.drop_last();
        assert forall|j: int| 0 <= j < x.len() implies agree(
            (#[trigger] x[j]).live(),
            y[j].live(),
            id,
        ) by {
            assert(x[j] == a[j] && y[j] == b[j]);
        }
        lemma_layered_agree(x, y, id);
        assert(agree(a[a.len() - 1].live(), b[a.len() - 1].live(), id));
    }
}

/// A segment without points may be left out.
proof fn lemma_layered_remove(segs: Seq<ImmutableSegment>, i: int)
    requires
        0 <= i < segs.len(),
        segs[i].live() == Map::<IdView, Entry>::empty(),
    ensures
        layered(segs.remove(i)) == layered(segs),
    decreases segs.len(),
{
    let rest = segs.drop_last();
    if i == segs.len() - 1 {
        assert(segs.remove(i) =~= rest);
        assert(layered(rest).union_prefer_right(Map::<IdView, Entry>::empty()) =~= layered(rest));
    } else {
        lemma_layered_remove(rest, i);
        assert(segs.remove(i).drop_last() =~= rest.remove(i));
        assert(segs.remove(i).last() == segs.last());
    }
}

/// The segments of a collection once one of them is rebuilt.
spec fn rebuilt_segs(db: Database, si: int, plan: RenewPlan) -> Seq<ImmutableSegment> {
    let segs = db.collections@[plan.at as int].view.immutables@;
    match plan.seg {
        Some(s) => segs.update(si, s),
        None => segs.remove(si),
    }
}

/// The numbers of the segments once one of them is rebuilt.
proof fn lemma_rebuilt_numbers(db: Database, si: int, plan: RenewPlan)
    requires
        numbered(db),
        plan.at < db.collections@.len(),
        0 <= si < db.collections@[plan.at as int].view.immutables@.len(),
        plan.seg is Some ==> plan.seg->0.number() == db.next_seg_id,
    ensures
        ({
            let old_segs = db.collections@[plan.at as int].view.immutables@;
            let segs = rebuilt_segs(db, si, plan);
            let list = numbers(old_segs);
            &&& numbers(segs) == (if plan.seg is Some {
                exchanged(list, list[si], db.next_seg_id)
            } else {
                all_but(list, list[si])
            })
            &&& forall|a: int, b: int|
                0 <= a < b < segs.len() ==> (#[trigger] segs[a]).number() != (
                #[trigger] segs[b]).number()
            &&& forall|j: int| 0 <= j < segs.len() ==> known(db, plan.at as int, #[trigger] segs[j])
            &&& forall|j: int|
                0 <= j < segs.len() ==> (plan.seg is Some && j == si && #[trigger] segs[j]
                    == plan.seg->0) || (exists|x: int|
                    0 <= x < old_segs.len() && x != si && segs[j] == #[trigger] old_segs[x])
        }),
{
    let at = plan.at as int;
    let old_segs = db.collections@[at].view.immutables@;
    let segs = rebuilt_segs(db, si, plan);
    let list = numbers(old_segs);
    lemma_distinct_in(db, at);
    assert forall|a: int, b: int| 0 <= a < b < list.len() implies #[trigger] list[a]
        != #[trigger] list[b] by {
        assert(old_segs[a].number() != old_segs[b].number());
    }
    assert forall|x: int| 0 <= x < old_segs.len() implies (#[trigger] old_segs[x]).number()
        < db.next_seg_id && known(db, at, old_segs[x]) by {
        assert(has_seg(db, at, x));
        assert(seg_number(db, at, x) == old_segs[x].number());
    }
    if plan.seg is Some {
        lemma_first(list, list[si], si, 0);
        assert(numbers(segs) =~= list.update(si, db.next_seg_id));
        assert forall|a: int, b: int| 0 <= a < b < segs.len() implies (
        #[trigger] segs[a]).number() != (#[trigger] segs[b]).number() by {
            assert(old_segs[a].number() != old_segs[b].number());
        }
        assert forall|j: int| 0 <= j < segs.len() implies (plan.seg is Some && j == si
            && #[trigger] segs[j] == plan.seg->0) || (exists|x: int|
            0 <= x < old_segs.len() && x != si && segs[j] == #[trigger] old_segs[x]) by {
            if j != si {
                assert(segs[j] == old_segs[j]);
            }
        }
    } else {
        lemma_all_but(list, si);
        assert(numbers(segs) =~= list.remove(si));
        assert forall|a: int, b: int| 0 <= a < b < segs.len() implies (
        #[trigger] segs[a]).number() != (#[trigger] segs[b]).number() by {
            let x = if a < si {
                a
            } else {
                a + 1
            };
            let y = if b < si {
                b
            } else {
                b + 1
            };
            assert(old_segs[x].number() != old_segs[y].number());
        }
        assert forall|j: int| 0 <= j < segs.len() implies (plan.seg is Some && j == si
            && #[trigger] segs[j] == plan.seg->0) || (exists|x: int|
            0 <= x < old_segs.len() && x != si && segs[j] == #[trigger] old_segs[x]) by {
            let x = if j < si {
                j
            } else {
                j + 1
            };
            assert(segs[j] == old_segs[x]);
        }
    }
    assert forall|j: int| 0 <= j < segs.len() implies known(db, at, #[trigger] segs[j]) by {
        if plan.seg is Some && j == si {
        } else {
            let x = choose|x: int|
                0 <= x < old_segs.len() && x != si && segs[j] == #[trigger] old_segs[x];
            assert(known(db, at, old_segs[x]));
        }
    }
}

/// What is stored while a segment is rebuilt.
proof fn lemma_rebuilding<N, S>(
    db: Database,
    disk: Disk,
    name: Seq<char>,
    si: usize,
    plan: RenewPlan,
    kernel: Kernel<N, S>,
    m: MutableSegment,
    next_lsn: u64,
    k: int,
) where N: Fn(&[u32]) -> u32, S: Fn(Metric, &[u32], u32, &[u32], u32) -> u32
    requires
        durable(db, disk, next_lsn),
        db.rebuild_planned(name, si, plan, kernel, m),
        0 <= k <= plan.steps@.len(),
    ensures
        gives_back(disk.performed_all(plan.steps@.take(k)), db),
        k == plan.steps@.len() ==> replaced(
            db,
            disk,
            disk.performed_all(plan.steps@),
            plan.at as int,
            rebuilt_segs(db, si as int, plan),
        ),
{
    let at = plan.at as int;
    let c = db.collections@[at];
    let old_segs = c.view.immutables@;
    let old_seg = old_segs[si as int];
    let id = db.next_seg_id;
    let gone = seq![old_seg.number()];
    let end = disk.performed_all(plan.steps@.take(k));
    let segs = rebuilt_segs(db, si as int, plan);
    assert(has_seg(db, at, si as int));
    assert(seg_number(db, at, si as int) < id);
    assert(gone[0] == old_seg.number());
    lemma_coll_from(db.collections@, name, 0);
    lemma_renew_steps(disk, plan, c.config, id, m, gone, kernel, k);
    if k <= plan.steps@.len() - gone.len() - 1 {
        assert forall|num: u64| num < db.next_seg_id implies (#[trigger] end.segs.contains_key(num)
            <==> disk.segs.contains_key(num)) && end.segs[num] == disk.segs[num] by {}
        lemma_unnoticed(db, disk, end, next_lsn);
    } else {
        lemma_rebuild_suits(db, name, si, plan, kernel, m);
        lemma_rebuilt_numbers(db, si as int, plan);
        assert(is_stored(disk, c));
        assert(c.valid());
        assert(numbers(old_segs)[si as int] == old_seg.number());
        assert(replaced(db, disk, end, at, segs)) by {
            assert forall|i: int, j: int|
                #[trigger] has_seg(db, i, j) && i != at implies end.segs.contains_key(
                seg_number(db, i, j),
            ) && end.segs[seg_number(db, i, j)] == disk.segs[seg_number(db, i, j)] by {
                assert(is_stored(disk, db.collections@[i]));
                assert(disk.segs.contains_key(db.collections@[i].view.immutables@[j].number()));
                assert(seg_number(db, i, j) != seg_number(db, at, si as int));
            }
            assert forall|j: int| 0 <= j < segs.len() implies (#[trigger] segs[j]).valid()
                && end.segs.contains_key(segs[j].number()) && on_disk(
                end.segs[segs[j].number()],
                segs[j],
            ) by {
                if !(plan.seg is Some && j == si && segs[j] == plan.seg->0) {
                    let x = choose|x: int|
                        0 <= x < old_segs.len() && x != si && segs[j] == #[trigger] old_segs[x];
                    assert(has_seg(db, at, x));
                    assert(seg_number(db, at, x) != seg_number(db, at, si as int));
                    assert(disk.segs.contains_key(old_segs[x].number()));
                    assert(old_segs[x].valid());
                }
            }
        }
        assert(settled_live(layered(segs)) == settled_live(layered(old_segs))) by {
            if plan.seg is Some {
                assert forall|x: IdView| #[trigger] agree(layered(segs), layered(old_segs), x) by {
                    assert forall|j: int| 0 <= j < segs.len() implies agree(
                        (#[trigger] segs[j]).live(),
                        old_segs[j].live(),
                        x,
                    ) by {}
                    lemma_layered_agree(segs, old_segs, x);
                }
                lemma_agree_settled(layered(segs), layered(old_segs));
            } else {
                lemma_layered_remove(old_segs, si as int);
            }
        }
        lemma_rebuilt_disjoint(db, si as int, plan);
        lemma_replaced_back(db, disk, end, next_lsn, at, segs);
        if k == plan.steps@.len() {
            assert(plan.steps@.take(k) =~= plan.steps@);
        }
    }
}

/// The segments of a collection share no points once one of them is rebuilt.
proof fn lemma_rebuilt_disjoint(db: Database, si: int, plan: RenewPlan)
    requires
        plan.at < db.collections@.len(),
        db.collections@[plan.at as int].view.apart(),
        0 <= si < db.collections@[plan.at as int].view.immutables@.len(),
        plan.seg is Some ==> plan.seg->0.live() == settled_live(
            db.collections@[plan.at as int].view.immutables@[si].live(),
        ),
    ensures
        disjoint(rebuilt_segs(db, si, plan)),
{
    let old_segs = db.collections@[plan.at as int].view.immutables@;
    let segs = rebuilt_segs(db, si, plan);
    assert forall|j: int, k: int, id: IdView|
        #![trigger segs[j].live().contains_key(id), segs[k].live().contains_key(id)]
        0 <= j < k < segs.len() && segs[j].live().contains_key(id) implies !segs[
    k].live().contains_key(id) by {
        let a = if plan.seg is None && j >= si {
            j + 1
        } else {
            j
        };
        let b = if plan.seg is None && k >= si {
            k + 1
        } else {
            k
        };
        assert(segs[j].live().contains_key(id) <==> old_segs[a].live().contains_key(id));
        assert(segs[k].live().contains_key(id) <==> old_segs[b].live().contains_key(id));
    }
}

/// Rebuilding a segment survives a crash, whichever of its steps were performed by then:
/// opening the database succeeds, and gives back what was kept.
pub proof fn law_rebuild_survives<N, S>(
    db: Database,
    disk: Disk,
    name: Seq<char>,
    si: usize,
    plan: RenewPlan,
    kernel: Kernel<N, S>,
    m: MutableSegment,
    next_lsn: u64,
    k: int,
) where N: Fn(&[u32]) -> u32, S: Fn(Metric, &[u32], u32, &[u32], u32) -> u32
    requires
        durable(db, disk, next_lsn),
        db.rebuild_planned(name, si, plan, kernel, m),
        0 <= k <= plan.steps@.len(),
    ensures
        gives_back(disk.performed_all(plan.steps@.take(k)), db),
{
    lemma_rebuilding(db, disk, name, si, plan, kernel, m, next_lsn, k);
}

/// Once a segment was rebuilt, everything that the database keeps is stored.
pub proof fn law_rebuild_is_durable<N, S>(
    db: Database,
    mid: Database,
    after: Database,
    disk: Disk,
    name: Seq<char>,
    si: usize,
    plan: RenewPlan,
    kernel: Kernel<N, S>,
    m: MutableSegment,
    next_lsn: u64,
) where N: Fn(&[u32]) -> u32, S: Fn(Metric, &[u32], u32, &[u32], u32) -> u32
    requires
        durable(db, disk, next_lsn),
        db.rebuild_planned(name, si, plan, kernel, m),
        db.took(mid, plan.seg),
        mid.rebuild_committed(after, si, plan),
        keeps_same(mid, after),
        after.valid(),
        after.apart(),
    ensures
        durable(after, disk.performed_all(plan.steps@), next_lsn),
{
    let steps = plan.steps@;
    let end = disk.performed_all(steps);
    let at = plan.at as int;
    let segs = rebuilt_segs(db, si as int, plan);
    let old_segs = db.collections@[at].view.immutables@;
    assert(steps.take(steps.len() as int) =~= steps);
    lemma_rebuilding(db, disk, name, si, plan, kernel, m, next_lsn, steps.len() as int);
    assert forall|x: Seq<char>| #[trigger] settled_kept(after.kept(x)) == settled_kept(
        db.kept(x),
    ) by {
        assert(settled_kept(after.kept(x)) == settled_kept(mid.kept(x)));
    }
    lemma_coll_from(db.collections@, name, 0);
    lemma_rebuilt_numbers(db, si as int, plan);
    lemma_renewed_manifest(
        disk,
        plan,
        db.next_seg_id,
        m,
        seq![old_segs[si as int].number()],
    );
    assert forall|j: int| 0 <= j < segs.len() implies (#[trigger] segs[j]).number()
        < after.next_seg_id by {
        if !(plan.seg is Some && j == si && segs[j] == plan.seg->0) {
            let x = choose|x: int|
                0 <= x < old_segs.len() && x != si && segs[j] == #[trigger] old_segs[x];
            assert(has_seg(db, at, x));
            assert(seg_number(db, at, x) < db.next_seg_id);
        }
    }
    lemma_replaced_durable(db, after, disk, end, next_lsn, at, segs);
}

} // verus!
