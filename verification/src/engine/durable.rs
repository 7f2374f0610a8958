//! That writes last.

use vstd::prelude::*;

use crate::engine::apply::{all_marks, all_overlays, places, stores_marks, stores_overlay};
use crate::engine::database::{
    coll_at, lemma_coll_at, lemma_coll_from, lemma_kept_none, Collection, Database, Step,
};
use crate::engine::disk::{
    alike, law_settled_op, lemma_on_disk, lemma_stacked_agree, lemma_stacked_alike, lemma_settled_points, on_disk,
    settled_op, settled_over, settled_points, stacked, Disk, StoredSegment,
};
use crate::engine::outcome::{
    agree, all_fit, law_outcome_settles, law_write_reaches_segments, needs_collection, orderly,
    outcome, overtakes, replayed, settled_kept, subject, writes, Kept,
};
use crate::engine::renew::numbers;
use crate::id::IdView;
use crate::engine::open::numbers_differ;
use crate::engine::view::disjoint;
use crate::manifest::{entry_at, lemma_entry_from, names_differ, EntryView};
use crate::segment::immutable::ImmutableSegment;
use crate::wal::{OpView, RecordView};
use crate::VERSION;

verus! {

/// Whether a collection is in the manifest with its segments, and these are stored as they
/// are in memory.
pub open spec fn is_stored(disk: Disk, c: Collection) -> bool {
    let at = entry_at(disk.manifest.entries, c.name@);
    &&& at < disk.manifest.entries.len()
    &&& disk.manifest.entries[at].config == c.config
    &&& disk.manifest.entries[at].segments == numbers(c.view.immutables@)
    &&& forall|j: int|
        0 <= j < c.view.immutables@.len() ==> disk.segs.contains_key(
            (#[trigger] c.view.immutables@[j]).number(),
        ) && on_disk(disk.segs[c.view.immutables@[j].number()], c.view.immutables@[j])
}

/// The number of an immutable segment.
pub open spec fn seg_number(db: Database, i: int, j: int) -> u64 {
    db.collections@[i].view.immutables@[j].number()
}

/// Whether there is such a segment.
pub open spec fn has_seg(db: Database, i: int, j: int) -> bool {
    0 <= i < db.collections@.len() && 0 <= j < db.collections@[i].view.immutables@.len()
}

/// Whether no two segments have the same number, and none has one that is still to come.
pub open spec fn numbered(db: Database) -> bool {
    &&& forall|i: int, j: int, x: int, y: int| #[trigger]
        has_seg(db, i, j) && #[trigger] has_seg(db, x, y) && seg_number(db, i, j) == seg_number(
            db,
            x,
            y,
        ) ==> i == x && j == y
    &&& forall|i: int, j: int| #[trigger]
        has_seg(db, i, j) ==> seg_number(db, i, j) < db.next_seg_id
}

/// Whether the collections are stored, with all their segments.
pub open spec fn stored(db: Database, disk: Disk) -> bool {
    &&& db.valid()
    &&& db.apart()
    &&& numbered(db)
    &&& disk.manifest == db.manifest@
    &&& names_differ(disk.manifest.entries)
    &&& forall|name: Seq<char>| #[trigger]
        db.kept(name) is Some <==> entry_at(disk.manifest.entries, name)
            < disk.manifest.entries.len()
    &&& forall|i: int|
        0 <= i < db.collections@.len() ==> is_stored(disk, #[trigger] db.collections@[i])
}

/// Whether opening the database does not stop at a record of the log.
pub open spec fn opens(disk: Disk) -> bool {
    forall|name: Seq<char>| #[trigger]
        orderly(disk.base(name), disk.log, disk.manifest.last_flushed_lsn, name)
}

/// Whether there is such a segment in a manifest.
pub open spec fn has_num(entries: Seq<EntryView>, i: int, j: int) -> bool {
    0 <= i < entries.len() && 0 <= j < entries[i].segments.len()
}

/// Whether the segments of a collection share no points.
pub open spec fn shares_none(disk: Disk, ids: Seq<u64>) -> bool {
    forall|j: int, k: int, id: IdView|
        #![trigger disk.segs[ids[j]].live().contains_key(id), disk.segs[ids[k]].live().contains_key(id)]
        0 <= j < k < ids.len() && disk.segs[ids[j]].live().contains_key(id)
            ==> !disk.segs[ids[k]].live().contains_key(id)
}

/// Whether no two segments of a manifest have the same number.
pub open spec fn all_differ(entries: Seq<EntryView>) -> bool {
    forall|i: int, j: int, x: int, y: int| #[trigger]
        has_num(entries, i, j) && #[trigger] has_num(entries, x, y) && entries[i].segments[j]
            == entries[x].segments[y] ==> i == x && j == y
}

/// Whether what is stored hangs together: the manifest is not of a later version, every segment
/// of it is there, no two collections have the same name and no two segments the same number,
/// the segments of a collection share no points, and the numbers of the records go up.
pub open spec fn tidy(disk: Disk) -> bool {
    let entries = disk.manifest.entries;
    &&& disk.manifest.version <= VERSION
    &&& names_differ(entries)
    &&& ascending(disk.log)
    &&& forall|i: int, j: int| #[trigger]
        has_num(entries, i, j) ==> disk.segs.contains_key(entries[i].segments[j])
    &&& all_differ(entries)
    &&& forall|i: int|
        0 <= i < entries.len() ==> shares_none(disk, (#[trigger] entries[i]).segments)
}

/// Whether opening the database gives back what it keeps.
pub open spec fn gives_back(disk: Disk, db: Database) -> bool {
    &&& tidy(disk)
    &&& opens(disk)
    &&& forall|name: Seq<char>| #[trigger]
        settled_kept(disk.recovered(name)) == settled_kept(db.kept(name))
}

/// Whether the numbers of records go up.
pub open spec fn ascending(log: Seq<RecordView>) -> bool {
    forall|i: int, j: int|
        0 <= i < j < log.len() ==> (#[trigger] log[i]).lsn < (#[trigger] log[j]).lsn
}

/// Whether everything that a database keeps is stored, in segments or in the log. `next_lsn`
/// is the number of the next record.
pub open spec fn durable(db: Database, disk: Disk, next_lsn: u64) -> bool {
    &&& stored(db, disk)
    &&& gives_back(disk, db)
    &&& disk.manifest.last_flushed_lsn < next_lsn
    &&& ascending(disk.log)
    &&& forall|i: int| 0 <= i < disk.log.len() ==> (#[trigger] disk.log[i]).lsn < next_lsn
}

/// The collection of an entry that is stored.
pub proof fn lemma_entry_stored(db: Database, disk: Disk, i: int)
    requires
        stored(db, disk),
        0 <= i < disk.manifest.entries.len(),
    ensures
        ({
            let e = disk.manifest.entries[i];
            let a = coll_at(db.collections@, e.name);
            let c = db.collections@[a];
            &&& 0 <= a < db.collections@.len()
            &&& c.name@ == e.name
            &&& is_stored(disk, c)
            &&& e.segments == numbers(c.view.immutables@)
        }),
{
    let entries = disk.manifest.entries;
    let name = entries[i].name;
    lemma_entry_from(entries, name, 0);
    let at = entry_at(entries, name);
    if at < i {
        assert(entries[at].name != entries[i].name);
    }
    assert(at == i);
    assert(db.kept(name) is Some);
    lemma_kept_none(db.collections@, name);
    lemma_coll_from(db.collections@, name, 0);
    assert(is_stored(disk, db.collections@[coll_at(db.collections@, name)]));
}

/// What hangs together still does where the segments of the manifest hold fewer points, and the
/// log another list of records.
pub proof fn lemma_tidy_less(a: Disk, b: Disk)
    requires
        tidy(a),
        b.manifest.version <= VERSION,
        b.manifest.entries == a.manifest.entries,
        ascending(b.log),
        forall|i: int, j: int| #[trigger]
            has_num(a.manifest.entries, i, j) ==> holds_less(a, b, a.manifest.entries[i].segments[j]),
    ensures
        tidy(b),
{
    let entries = a.manifest.entries;
    assert forall|i: int| 0 <= i < entries.len() implies shares_none(
        b,
        (#[trigger] entries[i]).segments,
    ) by {
        let ids = entries[i].segments;
        assert(shares_none(a, ids));
        assert forall|j: int, k: int, id: IdView|
            #![trigger b.segs[ids[j]].live().contains_key(id), b.segs[ids[k]].live().contains_key(id)]
            0 <= j < k < ids.len() && b.segs[ids[j]].live().contains_key(id) implies !b.segs[
        ids[k]].live().contains_key(id) by {
            assert(has_num(entries, i, j) && has_num(entries, i, k));
            assert(holds_less(a, b, ids[j]) && holds_less(a, b, ids[k]));
            assert(a.segs[ids[j]].live().contains_key(id));
            assert(!a.segs[ids[k]].live().contains_key(id));
        }
    }
}

/// Whether a segment is there and has no points that it did not have.
pub open spec fn holds_less(a: Disk, b: Disk, num: u64) -> bool {
    b.segs.contains_key(num) && forall|id: IdView| #[trigger]
        b.segs[num].live().contains_key(id) ==> a.segs[num].live().contains_key(id)
}

/// Whether some segments are stored, those of each collection.
pub open spec fn lists_stored(end: Disk, lists: Seq<Seq<ImmutableSegment>>) -> bool {
    forall|i: int, j: int|
        0 <= i < lists.len() && 0 <= j < lists[i].len() ==> (#[trigger] lists[i][j]).valid()
            && end.segs.contains_key(lists[i][j].number()) && on_disk(
            end.segs[lists[i][j].number()],
            lists[i][j],
        )
}

/// Whether an entry has the segments of its collection.
pub open spec fn lists_entry(
    db: Database,
    e: EntryView,
    lists: Seq<Seq<ImmutableSegment>>,
) -> bool {
    let i = coll_at(db.collections@, e.name);
    &&& 0 <= i < db.collections@.len()
    &&& db.collections@[i].name@ == e.name
    &&& e.segments == numbers(lists[i])
}

/// What is stored hangs together where each collection has segments that are stored and share no
/// points.
pub proof fn lemma_tidy_of(db: Database, end: Disk, lists: Seq<Seq<ImmutableSegment>>)
    requires
        end.manifest.version <= VERSION,
        names_differ(end.manifest.entries),
        ascending(end.log),
        lists.len() == db.collections@.len(),
        forall|e: int|
            0 <= e < end.manifest.entries.len() ==> lists_entry(
                db,
                #[trigger] end.manifest.entries[e],
                lists,
            ),
        lists_stored(end, lists),
        forall|i: int| 0 <= i < lists.len() ==> disjoint(#[trigger] lists[i]),
        numbers_differ(lists),
    ensures
        tidy(end),
{
    let entries = end.manifest.entries;
    assert forall|e: int, j: int| #[trigger] has_num(entries, e, j) implies ({
        let i = coll_at(db.collections@, entries[e].name);
        &&& 0 <= i < lists.len()
        &&& 0 <= j < lists[i].len()
        &&& lists[i][j].number() == entries[e].segments[j]
        &&& end.segs.contains_key(entries[e].segments[j])
    }) by {
        assert(lists_entry(db, entries[e], lists));
        let i = coll_at(db.collections@, entries[e].name);
        assert(numbers(lists[i])[j] == lists[i][j].number());
    }
    assert forall|i: int, j: int, x: int, y: int| #[trigger]
        has_num(entries, i, j) && #[trigger] has_num(entries, x, y) && entries[i].segments[j]
            == entries[x].segments[y] implies i == x && j == y by {
        let a = coll_at(db.collections@, entries[i].name);
        let b = coll_at(db.collections@, entries[x].name);
        assert(lists[a][j].number() == lists[b][y].number());
        assert(a == b && j == y);
        assert(lists_entry(db, entries[i], lists) && lists_entry(db, entries[x], lists));
        if i < x {
            assert(entries[i].name != entries[x].name);
        } else if x < i {
            assert(entries[x].name != entries[i].name);
        }
    }
    assert forall|e: int| 0 <= e < entries.len() implies shares_none(
        end,
        (#[trigger] entries[e]).segments,
    ) by {
        assert(lists_entry(db, entries[e], lists));
        let c = coll_at(db.collections@, entries[e].name);
        let segs = lists[c];
        let ids = entries[e].segments;
        assert(disjoint(segs));
        assert forall|j: int, k: int, id: IdView|
            #![trigger end.segs[ids[j]].live().contains_key(id), end.segs[ids[k]].live().contains_key(id)]
            0 <= j < k < ids.len() && end.segs[ids[j]].live().contains_key(id) implies !end.segs[
        ids[k]].live().contains_key(id) by {
            assert(has_num(entries, e, j) && has_num(entries, e, k));
            assert(lists[c][j].valid() && lists[c][k].valid());
            lemma_on_disk(end.segs[ids[j]], segs[j]);
            lemma_on_disk(end.segs[ids[k]], segs[k]);
            assert(agree(end.segs[ids[j]].live(), segs[j].live(), id));
            assert(agree(end.segs[ids[k]].live(), segs[k].live(), id));
            assert(segs[j].live().contains_key(id));
        }
    }
}

/// The segments of the manifest are those of the database.
pub proof fn lemma_nums_stored(db: Database, disk: Disk, i: int, j: int)
    requires
        stored(db, disk),
        has_num(disk.manifest.entries, i, j),
    ensures
        ({
            let num = disk.manifest.entries[i].segments[j];
            let c = coll_at(db.collections@, disk.manifest.entries[i].name);
            &&& disk.segs.contains_key(num)
            &&& num < db.next_seg_id
            &&& has_seg(db, c, j)
            &&& seg_number(db, c, j) == num
        }),
{
    lemma_entry_stored(db, disk, i);
    let c = coll_at(db.collections@, disk.manifest.entries[i].name);
    let segs = db.collections@[c].view.immutables@;
    assert(numbers(segs)[j] == segs[j].number());
    assert(has_seg(db, c, j));
    assert(disk.segs.contains_key(segs[j].number()));
}

/// The segments of all collections.
pub open spec fn all_segments(db: Database) -> Seq<Seq<ImmutableSegment>> {
    Seq::new(db.collections@.len(), |i: int| db.collections@[i].view.immutables@)
}

/// What a database has stored hangs together, whatever the log holds.
pub proof fn lemma_stored_tidy(db: Database, disk: Disk)
    requires
        stored(db, disk),
        disk.manifest.version <= VERSION,
        ascending(disk.log),
    ensures
        tidy(disk),
{
    let lists = all_segments(db);
    let entries = disk.manifest.entries;
    assert forall|e: int| 0 <= e < entries.len() implies lists_entry(
        db,
        #[trigger] entries[e],
        lists,
    ) by {
        lemma_entry_stored(db, disk, e);
    }
    assert forall|i: int, j: int| 0 <= i < lists.len() && 0 <= j < lists[i].len() implies (
    #[trigger] lists[i][j]).valid() && disk.segs.contains_key(lists[i][j].number()) && on_disk(
        disk.segs[lists[i][j].number()],
        lists[i][j],
    ) by {
        let c = db.collections@[i];
        assert(is_stored(disk, c));
        assert(c.valid());
        assert(c.view.immutables@[j] == lists[i][j]);
    }
    assert forall|i: int| 0 <= i < lists.len() implies disjoint(#[trigger] lists[i]) by {
        assert(db.collections@[i].view.apart());
    }
    assert(numbers_differ(lists)) by {
        assert forall|i: int, j: int, x: int, y: int|
            #![trigger lists[i][j], lists[x][y]]
            0 <= i < lists.len() && 0 <= j < lists[i].len() && 0 <= x < lists.len() && 0 <= y
                < lists[x].len() && lists[i][j].number() == lists[x][y].number() implies i == x && j
            == y by {
            assert(has_seg(db, i, j) && has_seg(db, x, y));
            assert(seg_number(db, i, j) == seg_number(db, x, y));
        }
    }
    lemma_tidy_of(db, disk, lists);
}

/// What the segments hold under the name of a collection that is stored.
pub proof fn lemma_base(db: Database, disk: Disk, i: int)
    requires
        stored(db, disk),
        0 <= i < db.collections@.len(),
    ensures
        ({
            let c = db.collections@[i];
            &&& disk.base(c.name@) is Some
            &&& disk.base(c.name@)->0.config == c.config
            &&& disk.base(c.name@)->0.points == stacked(disk.segs, numbers(c.view.immutables@))
        }),
{
    assert(is_stored(disk, db.collections@[i]));
}

/// Whether a collection of a name is there depends on nothing else.
pub proof fn lemma_presence(
    a: Option<Kept>,
    b: Option<Kept>,
    records: Seq<RecordView>,
    floor: u64,
    name: Seq<char>,
)
    ensures
        a is Some == b is Some ==> (replayed(a, records, floor, name) is Some == replayed(
            b,
            records,
            floor,
            name,
        ) is Some) && orderly(a, records, floor, name) == orderly(b, records, floor, name),
        (a is Some ==> b is Some) ==> (replayed(a, records, floor, name) is Some ==> replayed(
            b,
            records,
            floor,
            name,
        ) is Some) && (orderly(a, records, floor, name) ==> orderly(b, records, floor, name)),
    decreases records.len(),
{
    if records.len() > 0 {
        lemma_presence(a, b, records.drop_last(), floor, name);
    }
}

/// A record in the log has come to what it does.
pub proof fn law_logged_write_is_given_back(
    db: Database,
    disk: Disk,
    next_lsn: u64,
    op: OpView,
    rec: RecordView,
    name: Seq<char>,
)
    requires
        durable(db, disk, next_lsn),
        rec.lsn == next_lsn,
        settled_op(rec.op) == settled_op(op),
    ensures
        settled_kept(disk.appended(rec).recovered(name)) == settled_kept(
            outcome(db.kept(name), op, name),
        ),
{
    let floor = disk.manifest.last_flushed_lsn;
    let log = disk.log.push(rec);
    assert(log.drop_last() =~= disk.log);
    assert(disk.appended(rec).base(name) == disk.base(name));
    assert(disk.appended(rec).recovered(name) == outcome(disk.recovered(name), rec.op, name));
    law_outcome_settles(disk.recovered(name), db.kept(name), rec.op, name);
    law_settled_op(db.kept(name), rec.op, op, name);
}

/// The log stays orderly where a record is appended that finds its collection.
pub proof fn lemma_appended_opens(
    db: Database,
    disk: Disk,
    next_lsn: u64,
    op: OpView,
    rec: RecordView,
    name: Seq<char>,
)
    requires
        durable(db, disk, next_lsn),
        rec.lsn == next_lsn,
        settled_op(rec.op) == settled_op(op),
        needs_collection(op) ==> db.kept(subject(op)) is Some,
    ensures
        orderly(
            disk.base(name),
            disk.log.push(rec),
            disk.manifest.last_flushed_lsn,
            name,
        ),
{
    let floor = disk.manifest.last_flushed_lsn;
    let log = disk.log.push(rec);
    assert(log.drop_last() =~= disk.log);
    assert(orderly(disk.base(name), disk.log, floor, name));
    assert(settled_kept(disk.recovered(name)) == settled_kept(db.kept(name)));
    assert(subject(rec.op) == subject(op));
}

// ------------------------------------------------------------ marks and new payloads

/// The places are in order, and they are where the list says yes.
pub proof fn lemma_places(touched: Seq<bool>)
    ensures
        forall|j: int|
            0 <= j < places(touched).len() ==> 0 <= (#[trigger] places(touched)[j]) < touched.len()
                && touched[places(touched)[j]],
        forall|x: int|
            0 <= x < touched.len() && #[trigger] touched[x] ==> places(touched).contains(x),
        forall|a: int, b: int|
            0 <= a < b < places(touched).len() ==> (#[trigger] places(touched)[a]) < (
            #[trigger] places(touched)[b]),
    decreases touched.len(),
{
    if touched.len() > 0 {
        let rest = touched.drop_last();
        lemma_places(rest);
        assert forall|x: int| 0 <= x < touched.len() && #[trigger] touched[x] implies places(
            touched,
        ).contains(x) by {
            if x < rest.len() {
                assert(rest[x]);
                let j = choose|j: int| 0 <= j < places(rest).len() && places(rest)[j] == x;
                assert(places(touched)[j] == x);
            } else {
                assert(places(touched)[places(rest).len() as int] == x);
            }
        }
        assert forall|j: int| 0 <= j < places(touched).len() implies 0 <= (
        #[trigger] places(touched)[j]) < touched.len() && touched[places(touched)[j]] by {
            if j < places(rest).len() {
                assert(places(touched)[j] == places(rest)[j]);
                assert(rest[places(rest)[j]]);
            }
        }
        assert forall|a: int, b: int| 0 <= a < b < places(touched).len() implies (
        #[trigger] places(touched)[a]) < (#[trigger] places(touched)[b]) by {
            assert(places(touched)[a] == places(rest)[a]);
            if b < places(rest).len() {
                assert(places(touched)[b] == places(rest)[b]);
            }
        }
    }
}

/// Whether no two of some segments have the same number.
pub open spec fn distinct_in(segs: Seq<ImmutableSegment>) -> bool {
    forall|a: int, b: int|
        0 <= a < b < segs.len() ==> (#[trigger] segs[a]).number() != (#[trigger] segs[b]).number()
}

/// What is stored once the marks of the first `k` of some segments are.
pub proof fn lemma_marks_stored(
    disk: Disk,
    segs: Seq<ImmutableSegment>,
    at: Seq<int>,
    steps: Seq<Step>,
    k: int,
)
    requires
        distinct_in(segs),
        all_marks(segs, at, steps),
        forall|j: int| 0 <= j < at.len() ==> 0 <= (#[trigger] at[j]) < segs.len(),
        forall|a: int, b: int| 0 <= a < b < at.len() ==> (#[trigger] at[a]) < (#[trigger] at[b]),
        0 <= k <= steps.len(),
        forall|x: int|
            0 <= x < segs.len() ==> disk.segs.contains_key((#[trigger] segs[x]).number()),
    ensures
        ({
            let after = disk.performed_all(steps.take(k));
            &&& after.manifest == disk.manifest
            &&& after.log == disk.log
            &&& after.segs.dom() == disk.segs.dom()
            &&& forall|x: int|
                0 <= x < segs.len() ==> after.segs[(#[trigger] segs[x]).number()] == (
                if at.take(k).contains(x) {
                    StoredSegment {
                        dead: segs[x].dead(),
                        marked: true,
                        ..disk.segs[segs[x].number()]
                    }
                } else {
                    disk.segs[segs[x].number()]
                })
            &&& forall|num: u64|
                (forall|x: int| 0 <= x < segs.len() ==> (#[trigger] segs[x]).number() != num)
                    ==> #[trigger] after.segs[num] == disk.segs[num]
        }),
    decreases k,
{
    let after = disk.performed_all(steps.take(k));
    if k > 0 {
        lemma_marks_stored(disk, segs, at, steps, k - 1);
        let mid = disk.performed_all(steps.take(k - 1));
        assert(steps.take(k).drop_last() =~= steps.take(k - 1));
        assert(stores_marks(steps[k - 1], segs[at[k - 1]]));
        let p = at[k - 1];
        let num = segs[p].number();
        assert(!at.take(k - 1).contains(p)) by {
            if at.take(k - 1).contains(p) {
                let head = at.take(k - 1);
                let y = choose|y: int| 0 <= y < head.len() && head[y] == p;
                assert(at[y] < at[k - 1]);
            }
        }
        assert forall|x: int| 0 <= x < segs.len() implies after.segs[(
        #[trigger] segs[x]).number()] == (if at.take(k).contains(x) {
            StoredSegment {
                        dead: segs[x].dead(),
                        marked: true,
                        ..disk.segs[segs[x].number()]
                    }
        } else {
            disk.segs[segs[x].number()]
        }) by {
            if x == p {
                assert(at.take(k)[k - 1] == p);
            } else {
                if x < p {
                    assert(segs[x].number() != segs[p].number());
                } else {
                    assert(segs[p].number() != segs[x].number());
                }
                if at.take(k).contains(x) {
                    let head = at.take(k);
                    let y = choose|y: int| 0 <= y < head.len() && head[y] == x;
                    assert(at.take(k - 1)[y] == x);
                }
                if at.take(k - 1).contains(x) {
                    let head = at.take(k - 1);
                    let y = choose|y: int| 0 <= y < head.len() && head[y] == x;
                    assert(at.take(k)[y] == x);
                }
            }
        }
        assert(after.segs.dom() =~= disk.segs.dom());
    } else {
        assert(steps.take(0) =~= Seq::<Step>::empty());
    }
}

/// What is stored once the new payloads of the first `k` of some segments are.
pub proof fn lemma_overlays_stored(
    disk: Disk,
    segs: Seq<ImmutableSegment>,
    at: Seq<int>,
    steps: Seq<Step>,
    k: int,
)
    requires
        distinct_in(segs),
        all_overlays(segs, at, steps),
        forall|j: int| 0 <= j < at.len() ==> 0 <= (#[trigger] at[j]) < segs.len(),
        forall|a: int, b: int| 0 <= a < b < at.len() ==> (#[trigger] at[a]) < (#[trigger] at[b]),
        0 <= k <= steps.len(),
        forall|x: int|
            0 <= x < segs.len() ==> disk.segs.contains_key((#[trigger] segs[x]).number()),
    ensures
        ({
            let after = disk.performed_all(steps.take(k));
            &&& after.manifest == disk.manifest
            &&& after.log == disk.log
            &&& after.segs.dom() == disk.segs.dom()
            &&& forall|x: int|
                0 <= x < segs.len() ==> after.segs[(#[trigger] segs[x]).number()] == (
                if at.take(k).contains(x) {
                    StoredSegment {
                        over: settled_over(segs[x].over()),
                        ..disk.segs[segs[x].number()]
                    }
                } else {
                    disk.segs[segs[x].number()]
                })
            &&& forall|num: u64|
                (forall|x: int| 0 <= x < segs.len() ==> (#[trigger] segs[x]).number() != num)
                    ==> #[trigger] after.segs[num] == disk.segs[num]
        }),
    decreases k,
{
    let after = disk.performed_all(steps.take(k));
    if k > 0 {
        lemma_overlays_stored(disk, segs, at, steps, k - 1);
        let mid = disk.performed_all(steps.take(k - 1));
        assert(steps.take(k).drop_last() =~= steps.take(k - 1));
        assert(stores_overlay(steps[k - 1], segs[at[k - 1]]));
        let p = at[k - 1];
        let num = segs[p].number();
        assert(!at.take(k - 1).contains(p)) by {
            if at.take(k - 1).contains(p) {
                let head = at.take(k - 1);
                let y = choose|y: int| 0 <= y < head.len() && head[y] == p;
                assert(at[y] < at[k - 1]);
            }
        }
        assert forall|x: int| 0 <= x < segs.len() implies after.segs[(
        #[trigger] segs[x]).number()] == (if at.take(k).contains(x) {
            StoredSegment { over: settled_over(segs[x].over()), ..disk.segs[segs[x].number()] }
        } else {
            disk.segs[segs[x].number()]
        }) by {
            if x == p {
                assert(at.take(k)[k - 1] == p);
            } else {
                if x < p {
                    assert(segs[x].number() != segs[p].number());
                } else {
                    assert(segs[p].number() != segs[x].number());
                }
                if at.take(k).contains(x) {
                    let head = at.take(k);
                    let y = choose|y: int| 0 <= y < head.len() && head[y] == x;
                    assert(at.take(k - 1)[y] == x);
                }
                if at.take(k - 1).contains(x) {
                    let head = at.take(k - 1);
                    let y = choose|y: int| 0 <= y < head.len() && head[y] == x;
                    assert(at.take(k)[y] == x);
                }
            }
        }
        assert(after.segs.dom() =~= disk.segs.dom());
    } else {
        assert(steps.take(0) =~= Seq::<Step>::empty());
    }
}

/// What the segments of other collections hold does not change where those of one do.
pub proof fn lemma_others_same(db: Database, disk: Disk, after: Disk, at: int, name: Seq<char>)
    requires
        stored(db, disk),
        0 <= at < db.collections@.len(),
        after.manifest == disk.manifest,
        name != db.collections@[at].name@,
        forall|num: u64|
            (forall|x: int|
                0 <= x < db.collections@[at].view.immutables@.len() ==> (
                #[trigger] db.collections@[at].view.immutables@[x]).number() != num)
                ==> #[trigger] after.segs[num] == disk.segs[num],
    ensures
        after.base(name) == disk.base(name),
{
    lemma_kept_none(db.collections@, name);
    lemma_coll_from(db.collections@, name, 0);
    if db.kept(name) is Some {
        let i = coll_at(db.collections@, name);
        let c = db.collections@[i];
        assert(is_stored(disk, c));
        let ids = numbers(c.view.immutables@);
        assert forall|j: int| 0 <= j < ids.len() implies after.segs[#[trigger] ids[j]]
            == disk.segs[ids[j]] by {
            assert(has_seg(db, i, j));
            assert forall|x: int| 0 <= x < db.collections@[at].view.immutables@.len() implies (
            #[trigger] db.collections@[at].view.immutables@[x]).number() != ids[j] by {
                assert(has_seg(db, at, x));
                assert(seg_number(db, at, x) != seg_number(db, i, j));
            }
        }
        lemma_stacked_equal(after.segs, disk.segs, ids);
    }
}

/// Segments that are stored alike stack the same.
pub proof fn lemma_stacked_equal(
    a: Map<u64, StoredSegment>,
    b: Map<u64, StoredSegment>,
    ids: Seq<u64>,
)
    requires
        forall|j: int| 0 <= j < ids.len() ==> a[#[trigger] ids[j]] == b[ids[j]],
    ensures
        stacked(a, ids) == stacked(b, ids),
    decreases ids.len(),
{
    if ids.len() > 0 {
        let rest = ids.drop_last();
        assert forall|j: int| 0 <= j < rest.len() implies a[#[trigger] rest[j]] == b[rest[j]] by {
            assert(rest[j] == ids[j]);
        }
        lemma_stacked_equal(a, b, rest);
        assert(a[ids[ids.len() - 1]] == b[ids[ids.len() - 1]]);
    }
}

/// No two segments of a collection have the same number.
pub proof fn lemma_distinct_in(db: Database, at: int)
    requires
        numbered(db),
        0 <= at < db.collections@.len(),
    ensures
        distinct_in(db.collections@[at].view.immutables@),
{
    let segs = db.collections@[at].view.immutables@;
    assert forall|a: int, b: int| 0 <= a < b < segs.len() implies (#[trigger] segs[a]).number() != (
    #[trigger] segs[b]).number() by {
        assert(has_seg(db, at, a) && has_seg(db, at, b));
        assert(seg_number(db, at, a) != seg_number(db, at, b));
    }
}

/// Whether an operation decides anew about a point, or gives it a payload.
pub open spec fn decides(op: OpView, dim: nat, id: IdView) -> bool {
    match op {
        OpView::Upsert { points, .. } => all_fit(points, dim) && writes(points, id),
        OpView::Delete { ids, .. } => ids.contains(id),
        OpView::Pay { ids, .. } => ids.contains(id),
        _ => false,
    }
}

proof fn lemma_decides(a: OpView, b: OpView, dim: nat, id: IdView)
    requires
        settled_op(a) == settled_op(b),
    ensures
        decides(a, dim, id) == decides(b, dim, id),
{
    match (a, b) {
        (OpView::Upsert { points: x, .. }, OpView::Upsert { points: y, .. }) => {
            lemma_settled_points(Map::empty(), x, dim);
            lemma_settled_points(Map::empty(), y, dim);
            assert(writes(x, id) == writes(settled_points(x), id));
            assert(writes(y, id) == writes(settled_points(y), id));
        },
        _ => {},
    }
}

/// Whether a write changed what is stored of one collection, and there only where it
/// decides anew or gives a payload.
pub open spec fn touches(disk: Disk, after: Disk, c: Collection, op: OpView, rec: RecordView) -> bool {
    &&& after.manifest == disk.manifest
    &&& after.log == disk.log.push(rec)
    &&& after.segs.dom() == disk.segs.dom()
    &&& forall|num: u64|
        (forall|x: int|
            0 <= x < c.view.immutables@.len() ==> (#[trigger] c.view.immutables@[x]).number()
                != num) ==> #[trigger] after.segs[num] == disk.segs[num]
    &&& forall|x: int, id: IdView|
        #![trigger touches_at(disk, after, c, op, x, id)]
        0 <= x < c.view.immutables@.len() ==> touches_at(disk, after, c, op, x, id)
}

/// Whether a write changed one segment only where it decides anew or gives a payload.
pub open spec fn touches_at(disk: Disk, after: Disk, c: Collection, op: OpView, x: int, id: IdView) -> bool {
    let num = c.view.immutables@[x].number();
    let a = disk.segs[num].live();
    let b = after.segs[num].live();
    &&& agree(a, b, id) || decides(op, c.config.dim as nat, id)
    &&& op is Pay ==> alike(a, b, id)
}

/// What a write that is in the log left in the segments makes no difference.
pub proof fn lemma_touched(
    db: Database,
    disk: Disk,
    next_lsn: u64,
    at: int,
    op: OpView,
    rec: RecordView,
    after: Disk,
    name: Seq<char>,
)
    requires
        durable(db, disk, next_lsn),
        rec.lsn == next_lsn,
        settled_op(rec.op) == settled_op(op),
        needs_collection(op),
        0 <= at < db.collections@.len(),
        subject(op) == db.collections@[at].name@,
        touches(disk, after, db.collections@[at], op, rec),
    ensures
        orderly(after.base(name), after.log, after.manifest.last_flushed_lsn, name),
        settled_kept(after.recovered(name)) == settled_kept(outcome(db.kept(name), op, name)),
{
    let c = db.collections@[at];
    let floor = disk.manifest.last_flushed_lsn;
    lemma_coll_at(db.collections@, at);
    lemma_appended_opens(db, disk, next_lsn, op, rec, name);
    law_logged_write_is_given_back(db, disk, next_lsn, op, rec, name);
    assert(disk.appended(rec).base(name) == disk.base(name));
    if name != c.name@ {
        lemma_others_same(db, disk, after, at, name);
    } else {
        lemma_base(db, disk, at);
        let ids = numbers(c.view.immutables@);
        let a = disk.base(name)->0;
        let b = after.base(name)->0;
        let dim = c.config.dim as nat;
        assert forall|id: IdView|
            agree(a.points, b.points, id) || overtakes(
                a.points,
                b.points,
                rec.op,
                dim,
                id,
            ) by {
            lemma_decides(op, rec.op, dim, id);
            if !decides(op, dim, id) {
                assert forall|j: int| 0 <= j < ids.len() implies agree(
                    disk.segs[#[trigger] ids[j]].live(),
                    after.segs[ids[j]].live(),
                    id,
                ) by {
                    assert(touches_at(disk, after, c, op, j, id));
                }
                lemma_stacked_agree(disk.segs, after.segs, ids, id);
            } else if op is Pay {
                assert forall|j: int| 0 <= j < ids.len() implies alike(
                    disk.segs[#[trigger] ids[j]].live(),
                    after.segs[ids[j]].live(),
                    id,
                ) by {
                    assert(touches_at(disk, after, c, op, j, id));
                }
                lemma_stacked_alike(disk.segs, after.segs, ids, id);
            }
        }
        law_write_reaches_segments(a, b, disk.log, floor, name, rec);
        lemma_presence(disk.base(name), after.base(name), after.log, floor, name);
    }
}

} // verus!
