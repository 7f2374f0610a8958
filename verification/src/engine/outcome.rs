//! What the records of the log do to a collection.

use vstd::prelude::*;

use crate::collection::CollectionConfig;
use crate::engine::write::{id_set, with_points};
use crate::filter::listed;
use crate::id::{ExternalId, IdView};
use crate::segment::immutable::{repaid, settled_entry, settled_live};
use crate::segment::{Entry, Point};
use crate::wal::{id_views, point_views, Op, OpView, RecordView};

verus! {

/// What a database keeps under a name: nothing, or a configuration and points.
#[verifier::ext_equal]
pub struct Kept {
    /// The configuration.
    pub config: CollectionConfig,
    /// The points.
    pub points: Map<IdView, Entry>,
}

/// Whether all vectors have a dimension.
pub open spec fn all_fit(points: Seq<(IdView, Entry)>, dim: nat) -> bool {
    forall|i: int| 0 <= i < points.len() ==> (#[trigger] points[i]).1.vector.len() == dim
}

/// Points once others were written, one after the other.
pub open spec fn put_points(m: Map<IdView, Entry>, points: Seq<(IdView, Entry)>) -> Map<
    IdView,
    Entry,
>
    decreases points.len(),
{
    if points.len() == 0 {
        m
    } else {
        put_points(m, points.drop_last()).insert(points.last().0, points.last().1)
    }
}

/// The identifiers in a list.
pub open spec fn in_list(ids: Seq<IdView>) -> Set<IdView> {
    Set::new(|id: IdView| ids.contains(id))
}

/// The name that an operation is about.
pub open spec fn subject(op: OpView) -> Seq<char> {
    match op {
        OpView::Create { name, .. } => name,
        OpView::Drop { name } => name,
        OpView::Upsert { name, .. } => name,
        OpView::Delete { name, .. } => name,
        OpView::Pay { name, .. } => name,
    }
}

/// The name that an operation is about.
pub fn subject_of(op: &Op) -> (r: &str)
    ensures
        r@ == subject(op@),
{
    match op {
        Op::CreateCollection { name, .. } => name.as_str(),
        Op::DropCollection { name } => name.as_str(),
        Op::Upsert { collection, .. } => collection.as_str(),
        Op::Delete { collection, .. } => collection.as_str(),
        Op::SetPayload { collection, .. } => collection.as_str(),
        Op::ClearPayload { collection, .. } => collection.as_str(),
    }
}

/// What is kept under a name once something was done there. Making a collection that is
/// there changes nothing, and neither does writing points that do not have its dimension.
pub open spec fn done_to(k: Option<Kept>, op: OpView) -> Option<Kept> {
    match op {
        OpView::Create { config, .. } => match k {
            None => Some(Kept { config, points: Map::empty() }),
            Some(_) => k,
        },
        OpView::Drop { .. } => None,
        OpView::Upsert { points, .. } => match k {
            Some(c) => if all_fit(points, c.config.dim as nat) {
                Some(Kept { points: put_points(c.points, points), ..c })
            } else {
                k
            },
            None => None,
        },
        OpView::Delete { ids, .. } => match k {
            Some(c) => Some(Kept { points: c.points.remove_keys(in_list(ids)), ..c }),
            None => None,
        },
        OpView::Pay { ids, payload, .. } => match k {
            Some(c) => Some(Kept { points: repaid(c.points, in_list(ids), payload), ..c }),
            None => None,
        },
    }
}

/// What is kept under a name once something was done.
pub open spec fn outcome(k: Option<Kept>, op: OpView, name: Seq<char>) -> Option<Kept> {
    if subject(op) == name {
        done_to(k, op)
    } else {
        k
    }
}

/// What is kept under a name once the records above `floor` were replayed.
pub open spec fn replayed(
    k: Option<Kept>,
    records: Seq<RecordView>,
    floor: u64,
    name: Seq<char>,
) -> Option<Kept>
    decreases records.len(),
{
    if records.len() == 0 {
        k
    } else {
        let before = replayed(k, records.drop_last(), floor, name);
        if records.last().lsn <= floor {
            before
        } else {
            outcome(before, records.last().op, name)
        }
    }
}

/// Whether an operation needs its collection to be there.
pub open spec fn needs_collection(op: OpView) -> bool {
    op is Upsert || op is Delete || op is Pay
}

/// Writing points is writing what they are.
pub proof fn lemma_with_points(m: Map<IdView, Entry>, points: Seq<Point>)
    ensures
        with_points(m, points) == put_points(m, point_views(points)),
    decreases points.len(),
{
    if points.len() > 0 {
        lemma_with_points(m, points.drop_last());
        assert(point_views(points).drop_last() =~= point_views(points.drop_last()));
    }
}

/// The identifiers in a list are what they are.
pub proof fn lemma_id_views(ids: Seq<ExternalId>)
    ensures
        id_set(ids) == in_list(id_views(ids)),
{
    let v = id_views(ids);
    assert forall|id: IdView| #[trigger] listed(ids, id) <==> v.contains(id) by {
        if listed(ids, id) {
            let i = choose|i: int| 0 <= i < ids.len() && (#[trigger] ids[i])@ == id;
            assert(v[i] == id);
        }
        if v.contains(id) {
            let i = choose|i: int| 0 <= i < v.len() && v[i] == id;
            assert(ids[i]@ == id);
        }
    }
    assert(id_set(ids) =~= in_list(v));
}

/// What is kept, as files keep it.
pub open spec fn settled_kept(k: Option<Kept>) -> Option<Kept> {
    match k {
        Some(c) => Some(Kept { points: settled_live(c.points), ..c }),
        None => None,
    }
}

// ------------------------------------------------------------ one point

/// Whether something that was done decides on its own whether a point is there, and what
/// it is.
spec fn resets(op: OpView, id: IdView, dim: nat) -> bool {
    match op {
        OpView::Create { .. } => false,
        OpView::Drop { .. } => true,
        OpView::Upsert { points, .. } => all_fit(points, dim) && writes(points, id),
        OpView::Delete { ids, .. } => ids.contains(id),
        OpView::Pay { .. } => false,
    }
}

/// Whether a point is among some.
pub open spec fn writes(points: Seq<(IdView, Entry)>, id: IdView) -> bool {
    exists|i: int| 0 <= i < points.len() && (#[trigger] points[i]).0 == id
}

proof fn lemma_put_points(a: Map<IdView, Entry>, b: Map<IdView, Entry>, points: Seq<(IdView, Entry)>, id: IdView)
    ensures
        writes(points, id) ==> put_points(a, points).contains_key(id) && put_points(
            b,
            points,
        ).contains_key(id) && put_points(a, points)[id] == put_points(b, points)[id],
        !writes(points, id) ==> (put_points(a, points).contains_key(id) <==> a.contains_key(id))
            && (a.contains_key(id) ==> put_points(a, points)[id] == a[id]),
    decreases points.len(),
{
    if points.len() > 0 {
        let rest = points.drop_last();
        lemma_put_points(a, b, rest, id);
        if writes(rest, id) {
            let i = choose|i: int| 0 <= i < rest.len() && (#[trigger] rest[i]).0 == id;
            assert(points[i].0 == id);
        }
        if writes(points, id) && points.last().0 != id {
            let i = choose|i: int| 0 <= i < points.len() && (#[trigger] points[i]).0 == id;
            assert(rest[i].0 == id);
        }
        if points.last().0 == id {
            assert(points[points.len() - 1].0 == id);
        }
    }
}

/// Whether two collections agree on a point.
pub open spec fn agree(a: Map<IdView, Entry>, b: Map<IdView, Entry>, id: IdView) -> bool {
    (a.contains_key(id) <==> b.contains_key(id)) && (a.contains_key(id) ==> settled_entry(a[id])
        == settled_entry(b[id]))
}

/// Whether two collections agree on a point but for its payload.
spec fn agree_but(a: Map<IdView, Entry>, b: Map<IdView, Entry>, id: IdView) -> bool {
    (a.contains_key(id) <==> b.contains_key(id)) && (a.contains_key(id) ==> a[id].vector
        == b[id].vector)
}

/// What is done to collections that agree on a point leaves collections that agree on it.
proof fn lemma_agree(a: Kept, b: Kept, op: OpView, id: IdView)
    requires
        a.config == b.config,
        agree(a.points, b.points, id),
        !(op is Drop),
    ensures
        done_to(Some(a), op) is Some,
        done_to(Some(b), op) is Some,
        done_to(Some(a), op)->0.config == a.config,
        done_to(Some(b), op)->0.config == b.config,
        agree(done_to(Some(a), op)->0.points, done_to(Some(b), op)->0.points, id),
{
    if let OpView::Upsert { points, .. } = op {
        lemma_put_points(a.points, b.points, points, id);
        lemma_put_points(b.points, a.points, points, id);
    }
}

/// What decides on its own about a point leaves collections that agree on it.
proof fn lemma_resets(a: Kept, b: Kept, op: OpView, id: IdView)
    requires
        a.config == b.config,
        resets(op, id, a.config.dim as nat),
        !(op is Drop),
    ensures
        agree(done_to(Some(a), op)->0.points, done_to(Some(b), op)->0.points, id),
{
    if let OpView::Upsert { points, .. } = op {
        lemma_put_points(a.points, b.points, points, id);
    }
}

/// What is kept of collections that agree is settled alike.
proof fn lemma_settled_same(a: Kept, b: Kept)
    requires
        a.config == b.config,
        forall|id: IdView| #[trigger] agree(a.points, b.points, id),
    ensures
        settled_kept(Some(a)) == settled_kept(Some(b)),
{
    assert forall|id: IdView| #[trigger] settled_live(a.points).contains_key(id)
        <==> settled_live(b.points).contains_key(id) by {
        assert(agree(a.points, b.points, id));
    }
    assert forall|id: IdView| #[trigger] settled_live(a.points).contains_key(
        id,
    ) implies settled_live(a.points)[id] == settled_live(b.points)[id] by {
        assert(agree(a.points, b.points, id));
    }
    assert(settled_live(a.points) =~= settled_live(b.points));
}

proof fn lemma_settled_agree(a: Kept, b: Kept, id: IdView)
    requires
        settled_kept(Some(a)) == settled_kept(Some(b)),
    ensures
        a.config == b.config,
        agree(a.points, b.points, id),
{
    let x = settled_live(a.points);
    let y = settled_live(b.points);
    assert(x == y);
    assert(x.contains_key(id) <==> y.contains_key(id));
    if x.contains_key(id) {
        assert(x[id] == y[id]);
    }
}

// ------------------------------------------------------------ laws

/// What is done to what is settled alike leaves what is settled alike: whether a payload
/// is `null` or absent makes no difference to what comes of it.
pub proof fn law_outcome_settles(a: Option<Kept>, b: Option<Kept>, op: OpView, name: Seq<char>)
    requires
        settled_kept(a) == settled_kept(b),
    ensures
        settled_kept(outcome(a, op, name)) == settled_kept(outcome(b, op, name)),
{
    if subject(op) == name && !(op is Drop) && a is Some && b is Some {
        let x = done_to(a, op)->0;
        let y = done_to(b, op)->0;
        assert forall|id: IdView| #[trigger] agree(x.points, y.points, id) by {
            lemma_settled_agree(a->0, b->0, id);
            lemma_agree(a->0, b->0, op, id);
        }
        let id = arbitrary_id();
        lemma_settled_agree(a->0, b->0, id);
        lemma_agree(a->0, b->0, op, id);
        lemma_settled_same(x, y);
    }
}

spec fn arbitrary_id() -> IdView {
    IdView::Num(0)
}

/// Replaying records over what is settled alike leaves what is settled alike.
pub proof fn law_replay_settles(
    a: Option<Kept>,
    b: Option<Kept>,
    records: Seq<RecordView>,
    floor: u64,
    name: Seq<char>,
)
    requires
        settled_kept(a) == settled_kept(b),
    ensures
        settled_kept(replayed(a, records, floor, name)) == settled_kept(
            replayed(b, records, floor, name),
        ),
    decreases records.len(),
{
    if records.len() > 0 {
        law_replay_settles(a, b, records.drop_last(), floor, name);
        law_outcome_settles(
            replayed(a, records.drop_last(), floor, name),
            replayed(b, records.drop_last(), floor, name),
            records.last().op,
            name,
        );
    }
}

/// Records that are not above the floor are skipped.
pub proof fn law_floor_is_skipped(
    k: Option<Kept>,
    records: Seq<RecordView>,
    floor: u64,
    name: Seq<char>,
)
    requires
        forall|i: int| 0 <= i < records.len() ==> (#[trigger] records[i]).lsn <= floor,
    ensures
        replayed(k, records, floor, name) == k,
    decreases records.len(),
{
    if records.len() > 0 {
        assert(records[records.len() - 1].lsn <= floor);
        assert forall|i: int| 0 <= i < records.drop_last().len() implies (
        #[trigger] records.drop_last()[i]).lsn <= floor by {
            assert(records[i].lsn <= floor);
        }
        law_floor_is_skipped(k, records.drop_last(), floor, name);
    }
}

/// Whether every record that needs its collection finds it there when it is replayed, but for
/// those of a collection that a later record drops.
pub open spec fn orderly(
    k: Option<Kept>,
    records: Seq<RecordView>,
    floor: u64,
    name: Seq<char>,
) -> bool
    decreases records.len(),
{
    if records.len() == 0 {
        true
    } else {
        let rest = records.drop_last();
        let last = records.last();
        if last.lsn > floor && subject(last.op) == name && last.op is Drop {
            true
        } else {
            &&& orderly(k, rest, floor, name)
            &&& last.lsn > floor && subject(last.op) == name && needs_collection(last.op)
                ==> replayed(k, rest, floor, name) is Some
        }
    }
}

/// Whether a record behind place `i` drops the collection that record `i` is about.
pub open spec fn overridden(records: Seq<RecordView>, floor: u64, i: int) -> bool {
    exists|j: int|
        i < j < records.len() && (#[trigger] records[j]).lsn > floor && records[j].op is Drop
            && subject(records[j].op) == subject(records[i].op)
}

/// Those of the first `n` records whose collections no later record drops.
pub open spec fn needed(records: Seq<RecordView>, floor: u64, n: int) -> Seq<RecordView>
    decreases n,
{
    if n <= 0 {
        Seq::empty()
    } else if overridden(records, floor, n - 1) {
        needed(records, floor, n - 1)
    } else {
        needed(records, floor, n - 1).push(records[n - 1])
    }
}

/// Whether one of some records drops a collection behind place `n`.
spec fn drops_later(records: Seq<RecordView>, floor: u64, name: Seq<char>, n: int) -> bool {
    exists|j: int|
        n <= j < records.len() && (#[trigger] records[j]).lsn > floor && records[j].op is Drop
            && subject(records[j].op) == name
}

/// Where no later record drops a collection, the records that are needed come to the same as
/// all.
proof fn lemma_needed(
    k: Option<Kept>,
    records: Seq<RecordView>,
    floor: u64,
    name: Seq<char>,
    n: int,
)
    requires
        0 <= n <= records.len(),
        !drops_later(records, floor, name, n),
    ensures
        replayed(k, needed(records, floor, n), floor, name) == replayed(
            k,
            records.take(n),
            floor,
            name,
        ),
        orderly(k, needed(records, floor, n), floor, name) == orderly(
            k,
            records.take(n),
            floor,
            name,
        ),
    decreases n,
{
    let some = needed(records, floor, n);
    let all = records.take(n);
    if n == 0 {
        assert(all =~= some);
    } else {
        let r = records[n - 1];
        let rest = needed(records, floor, n - 1);
        assert(all.drop_last() =~= records.take(n - 1));
        assert(all.last() == r);
        if r.lsn > floor && subject(r.op) == name {
            assert(!overridden(records, floor, n - 1)) by {
                if overridden(records, floor, n - 1) {
                    let j = choose|j: int|
                        n - 1 < j < records.len() && (#[trigger] records[j]).lsn > floor
                            && records[j].op is Drop && subject(records[j].op) == subject(
                            records[n - 1].op,
                        );
                    assert(drops_later(records, floor, name, n));
                }
            }
            assert(some.drop_last() =~= rest);
            if !(r.op is Drop) {
                assert(!drops_later(records, floor, name, n - 1)) by {
                    if drops_later(records, floor, name, n - 1) {
                        let j = choose|j: int|
                            n - 1 <= j < records.len() && (#[trigger] records[j]).lsn > floor
                                && records[j].op is Drop && subject(records[j].op) == name;
                        assert(j == n - 1);
                    }
                }
                lemma_needed(k, records, floor, name, n - 1);
            }
        } else {
            assert(!drops_later(records, floor, name, n - 1)) by {
                if drops_later(records, floor, name, n - 1) {
                    let j = choose|j: int|
                        n - 1 <= j < records.len() && (#[trigger] records[j]).lsn > floor
                            && records[j].op is Drop && subject(records[j].op) == name;
                    assert(j == n - 1);
                }
            }
            lemma_needed(k, records, floor, name, n - 1);
            if !overridden(records, floor, n - 1) {
                assert(some.drop_last() =~= rest);
            }
        }
    }
}

/// Replaying the records of collections that no later record drops comes to the same as
/// replaying all.
pub proof fn law_overridden_records_can_be_skipped(
    k: Option<Kept>,
    records: Seq<RecordView>,
    floor: u64,
    name: Seq<char>,
)
    ensures
        replayed(k, needed(records, floor, records.len() as int), floor, name) == replayed(
            k,
            records,
            floor,
            name,
        ),
        orderly(k, needed(records, floor, records.len() as int), floor, name) == orderly(
            k,
            records,
            floor,
            name,
        ),
{
    let n = records.len() as int;
    assert(!drops_later(records, floor, name, n));
    lemma_needed(k, records, floor, name, n);
    assert(records.take(n) =~= records);
}

/// The records that are needed are in order.
pub proof fn lemma_needed_order(records: Seq<RecordView>, floor: u64, n: int)
    requires
        0 <= n <= records.len(),
        forall|i: int, j: int|
            0 <= i < j < records.len() ==> (#[trigger] records[i]).lsn < (
            #[trigger] records[j]).lsn,
    ensures
        needed(records, floor, n).len() <= n,
        forall|i: int, j: int|
            0 <= i < j < needed(records, floor, n).len() ==> (
            #[trigger] needed(records, floor, n)[i]).lsn < (
            #[trigger] needed(records, floor, n)[j]).lsn,
        forall|i: int|
            0 <= i < needed(records, floor, n).len() ==> records.take(n).contains(
                #[trigger] needed(records, floor, n)[i],
            ),
    decreases n,
{
    if n > 0 {
        lemma_needed_order(records, floor, n - 1);
        let rest = needed(records, floor, n - 1);
        let some = needed(records, floor, n);
        assert forall|i: int| 0 <= i < some.len() implies records.take(n).contains(
            #[trigger] some[i],
        ) by {
            if i < rest.len() {
                assert(some[i] == rest[i]);
                let head = records.take(n - 1);
                assert(head.contains(rest[i]));
                let x = choose|x: int| 0 <= x < head.len() && head[x] == rest[i];
                assert(records.take(n)[x] == some[i]);
            } else {
                assert(records.take(n)[n - 1] == some[i]);
            }
        }
        assert forall|i: int, j: int| 0 <= i < j < some.len() implies (#[trigger] some[i]).lsn < (
        #[trigger] some[j]).lsn by {
            assert(some[i] == rest[i]);
            if j < rest.len() {
                assert(some[j] == rest[j]);
            } else {
                let head = records.take(n - 1);
                assert(head.contains(rest[i]));
                let x = choose|x: int| 0 <= x < head.len() && head[x] == rest[i];
                assert(records[x].lsn < records[n - 1].lsn);
            }
        }
    }
}

/// The records that are needed of the first are the first that are needed.
pub proof fn lemma_needed_parts(records: Seq<RecordView>, floor: u64, n: int, m: int)
    requires
        0 <= n <= m,
    ensures
        needed(records, floor, n).len() <= needed(records, floor, m).len(),
        needed(records, floor, m).take(needed(records, floor, n).len() as int) == needed(
            records,
            floor,
            n,
        ),
    decreases m - n,
{
    let a = needed(records, floor, n);
    if n == m {
        assert(a.take(a.len() as int) =~= a);
    } else {
        lemma_needed_parts(records, floor, n, m - 1);
        let b = needed(records, floor, m - 1);
        assert(needed(records, floor, m).take(a.len() as int) =~= b.take(a.len() as int));
    }
}

/// Whether a point's state was decided by one of some records alone, whatever was there
/// before; and if not, whether it was given a payload by one of them.
spec fn fixed(
    k: Option<Kept>,
    records: Seq<RecordView>,
    floor: u64,
    name: Seq<char>,
    id: IdView,
    dim: nat,
) -> bool
    decreases records.len(),
{
    if records.len() == 0 {
        false
    } else {
        let r = records.last();
        fixed(k, records.drop_last(), floor, name, id, dim) || (r.lsn > floor && subject(r.op)
            == name && resets(r.op, id, dim))
    }
}

/// Whether one of some records gives a point a payload.
spec fn paid(records: Seq<RecordView>, floor: u64, name: Seq<char>, id: IdView) -> bool
    decreases records.len(),
{
    if records.len() == 0 {
        false
    } else {
        let r = records.last();
        paid(records.drop_last(), floor, name, id) || (r.lsn > floor && subject(r.op) == name
            && r.op is Pay && r.op->Pay_ids.contains(id))
    }
}

/// Whether one of some records drops a collection.
spec fn dropped(records: Seq<RecordView>, floor: u64, name: Seq<char>) -> bool
    decreases records.len(),
{
    if records.len() == 0 {
        false
    } else {
        let r = records.last();
        dropped(records.drop_last(), floor, name) || (r.lsn > floor && subject(r.op) == name
            && r.op is Drop)
    }
}

/// Once a collection was dropped, what was there before makes no difference.
proof fn lemma_dropped(
    a: Option<Kept>,
    b: Option<Kept>,
    records: Seq<RecordView>,
    floor: u64,
    name: Seq<char>,
)
    requires
        dropped(records, floor, name),
    ensures
        replayed(a, records, floor, name) == replayed(b, records, floor, name),
    decreases records.len(),
{
    let r = records.last();
    let rest = records.drop_last();
    if dropped(rest, floor, name) {
        lemma_dropped(a, b, rest, floor, name);
    }
}

/// Without dropping, a collection that is there stays, with its configuration.
proof fn lemma_stays(a: Kept, records: Seq<RecordView>, floor: u64, name: Seq<char>)
    requires
        !dropped(records, floor, name),
    ensures
        replayed(Some(a), records, floor, name) is Some,
        replayed(Some(a), records, floor, name)->0.config == a.config,
    decreases records.len(),
{
    if records.len() > 0 {
        lemma_stays(a, records.drop_last(), floor, name);
    }
}

/// How replaying the same records over two collections of one configuration compares, for
/// one point: alike where the records fix the point; else as before, but for the payload
/// where the records give one.
proof fn lemma_compare(
    a: Kept,
    b: Kept,
    records: Seq<RecordView>,
    floor: u64,
    name: Seq<char>,
    id: IdView,
)
    requires
        a.config == b.config,
        !dropped(records, floor, name),
    ensures
        ({
            let x = replayed(Some(a), records, floor, name);
            let y = replayed(Some(b), records, floor, name);
            let f = fixed(Some(a), records, floor, name, id, a.config.dim as nat);
            &&& x is Some && y is Some
            &&& x->0.config == a.config && y->0.config == a.config
            &&& f ==> agree(x->0.points, y->0.points, id)
            &&& agree(a.points, b.points, id) ==> agree(x->0.points, y->0.points, id)
            &&& agree_but(a.points, b.points, id) ==> agree_but(x->0.points, y->0.points, id)
            &&& agree_but(a.points, b.points, id) && paid(records, floor, name, id) ==> agree(
                x->0.points,
                y->0.points,
                id,
            )
            &&& !f ==> agree_but(x->0.points, a.points, id)
            &&& !f && !paid(records, floor, name, id) ==> agree(x->0.points, a.points, id)
        }),
    decreases records.len(),
{
    if records.len() > 0 {
        let rest = records.drop_last();
        let r = records.last();
        lemma_compare(a, b, rest, floor, name, id);
        let x = replayed(Some(a), rest, floor, name)->0;
        let y = replayed(Some(b), rest, floor, name)->0;
        if r.lsn > floor && subject(r.op) == name {
            assert(!(r.op is Drop));
            if let OpView::Upsert { points, .. } = r.op {
                lemma_put_points(x.points, y.points, points, id);
                lemma_put_points(y.points, x.points, points, id);
            }
            if agree(x.points, y.points, id) {
                lemma_agree(x, y, r.op, id);
            }
            if resets(r.op, id, a.config.dim as nat) {
                lemma_resets(x, y, r.op, id);
            }
        }
    }
}

/// Before the record that makes a collection, records that need it find nothing: in an
/// orderly log there are none.
proof fn lemma_none_before(records: Seq<RecordView>, floor: u64, name: Seq<char>)
    requires
        orderly(None, records, floor, name),
        !dropped(records, floor, name),
        replayed(None, records, floor, name) is None,
    ensures
        forall|k: Kept| #[trigger] replayed(Some(k), records, floor, name) == Some(k),
    decreases records.len(),
{
    if records.len() > 0 {
        let rest = records.drop_last();
        let r = records.last();
        assert(replayed(None, rest, floor, name) is None) by {
            if replayed(None, rest, floor, name) is Some {
                assert(outcome(replayed(None, rest, floor, name), r.op, name) is Some);
            }
        }
        lemma_none_before(rest, floor, name);
        assert forall|k: Kept| #[trigger] replayed(Some(k), records, floor, name) == Some(k) by {
            assert(replayed(Some(k), rest, floor, name) == Some(k));
        }
    }
}

/// Replaying a log without dropping over what it already led to leads to the same again.
proof fn lemma_again(
    c: Kept,
    records: Seq<RecordView>,
    floor: u64,
    name: Seq<char>,
    after: Kept,
)
    requires
        !dropped(records, floor, name),
        settled_kept(replayed(Some(c), records, floor, name)) == settled_kept(Some(after)),
    ensures
        settled_kept(replayed(Some(after), records, floor, name)) == settled_kept(Some(after)),
{
    lemma_stays(c, records, floor, name);
    let got = replayed(Some(c), records, floor, name)->0;
    let again = replayed(Some(after), records, floor, name);
    lemma_settled_agree(got, after, arbitrary_id());
    lemma_stays(after, records, floor, name);
    assert forall|id: IdView| #[trigger] agree(again->0.points, after.points, id) by {
        lemma_settled_agree(got, after, id);
        lemma_compare(c, after, records, floor, name, id);
        lemma_compare(after, c, records, floor, name, id);
        lemma_fixed_same(Some(c), Some(after), records, floor, name, id, c.config.dim as nat);
    }
    lemma_settled_same(again->0, after);
}

proof fn lemma_fixed_same(
    a: Option<Kept>,
    b: Option<Kept>,
    records: Seq<RecordView>,
    floor: u64,
    name: Seq<char>,
    id: IdView,
    dim: nat,
)
    ensures
        fixed(a, records, floor, name, id, dim) == fixed(b, records, floor, name, id, dim),
    decreases records.len(),
{
    if records.len() > 0 {
        lemma_fixed_same(a, b, records.drop_last(), floor, name, id, dim);
    }
}

/// The same for a log that makes the collection.
proof fn lemma_from_nothing(records: Seq<RecordView>, floor: u64, name: Seq<char>, after: Kept)
    requires
        orderly(None, records, floor, name),
        !dropped(records, floor, name),
        settled_kept(replayed(None, records, floor, name)) == settled_kept(Some(after)),
    ensures
        settled_kept(replayed(Some(after), records, floor, name)) == settled_kept(Some(after)),
{
    let made = made_at(records, floor, name);
    lemma_made_at(records, floor, name);
    let head = records.take(made);
    let tail = records.skip(made + 1);
    let config = records[made].op->Create_config;
    let empty = Kept { config, points: Map::empty() };
    law_replay_in_parts(None, records, made + 1, floor, name);
    law_replay_in_parts(Some(after), records, made + 1, floor, name);
    lemma_orderly_take(records, made, floor, name);
    lemma_not_dropped_part(records, made + 1, floor, name);
    assert(records.take(made + 1).drop_last() =~= head);
    assert(records.take(made + 1).last() == records[made]);
    lemma_not_dropped_part(records.take(made + 1), made, floor, name);
    assert(records.take(made + 1).take(made) =~= head);
    lemma_none_before(head, floor, name);
    assert(replayed(Some(after), head, floor, name) == Some(after));
    assert(replayed(Some(after), records.take(made + 1), floor, name) == Some(after));
    assert(replayed(None, records.take(made + 1), floor, name) == Some(empty));
    lemma_again(empty, tail, floor, name, after);
}

/// Where a collection is made.
spec fn made_at(records: Seq<RecordView>, floor: u64, name: Seq<char>) -> int
    decreases records.len(),
{
    if records.len() == 0 {
        0
    } else if replayed(None, records.drop_last(), floor, name) is Some {
        made_at(records.drop_last(), floor, name)
    } else {
        records.len() - 1
    }
}

proof fn lemma_made_at(records: Seq<RecordView>, floor: u64, name: Seq<char>)
    requires
        !dropped(records, floor, name),
        replayed(None, records, floor, name) is Some,
    ensures
        0 <= made_at(records, floor, name) < records.len(),
        replayed(None, records.take(made_at(records, floor, name)), floor, name) is None,
        ({
            let r = records[made_at(records, floor, name)];
            r.lsn > floor && subject(r.op) == name && r.op is Create
        }),
    decreases records.len(),
{
    let rest = records.drop_last();
    if replayed(None, rest, floor, name) is Some {
        lemma_made_at(rest, floor, name);
        let i = made_at(rest, floor, name);
        assert(rest.take(i) =~= records.take(i));
        assert(rest[i] == records[i]);
    } else {
        assert(records.take(records.len() - 1) =~= rest);
    }
}

/// Records may be replayed part by part.
pub proof fn law_replay_in_parts(
    k: Option<Kept>,
    records: Seq<RecordView>,
    n: int,
    floor: u64,
    name: Seq<char>,
)
    requires
        0 <= n <= records.len(),
    ensures
        replayed(k, records, floor, name) == replayed(
            replayed(k, records.take(n), floor, name),
            records.skip(n),
            floor,
            name,
        ),
    decreases records.len(),
{
    if n == records.len() {
        assert(records.take(n) =~= records);
        assert(records.skip(n) =~= Seq::<RecordView>::empty());
    } else {
        let rest = records.drop_last();
        law_replay_in_parts(k, rest, n, floor, name);
        assert(rest.take(n) =~= records.take(n));
        assert(records.skip(n).drop_last() =~= rest.skip(n));
        assert(records.skip(n).last() == records.last());
    }
}

proof fn lemma_not_dropped_part(records: Seq<RecordView>, n: int, floor: u64, name: Seq<char>)
    requires
        0 <= n <= records.len(),
        !dropped(records, floor, name),
    ensures
        !dropped(records.take(n), floor, name),
        !dropped(records.skip(n), floor, name),
    decreases records.len(),
{
    if n == records.len() {
        assert(records.take(n) =~= records);
        assert(records.skip(n) =~= Seq::<RecordView>::empty());
    } else {
        let rest = records.drop_last();
        lemma_not_dropped_part(rest, n, floor, name);
        assert(rest.take(n) =~= records.take(n));
        assert(records.skip(n).drop_last() =~= rest.skip(n));
        assert(records.skip(n).last() == records.last());
    }
}

proof fn lemma_orderly_take(records: Seq<RecordView>, n: int, floor: u64, name: Seq<char>)
    requires
        0 <= n <= records.len(),
        !dropped(records, floor, name),
        orderly(None, records, floor, name),
    ensures
        orderly(None, records.take(n), floor, name),
    decreases records.len(),
{
    if n == records.len() {
        assert(records.take(n) =~= records);
    } else {
        lemma_orderly_take(records.drop_last(), n, floor, name);
        assert(records.drop_last().take(n) =~= records.take(n));
    }
}

/// Replaying a log over what it already led to leads to the same again. So the log does
/// not have to be emptied at the moment in which what it says is stored elsewhere.
pub proof fn law_replay_again(
    k: Option<Kept>,
    records: Seq<RecordView>,
    floor: u64,
    name: Seq<char>,
    after: Option<Kept>,
)
    requires
        orderly(k, records, floor, name),
        settled_kept(after) == settled_kept(replayed(k, records, floor, name)),
        after is Some,
    ensures
        settled_kept(replayed(after, records, floor, name)) == settled_kept(after),
{
    if dropped(records, floor, name) {
        lemma_dropped(k, after, records, floor, name);
    } else {
        match k {
            Some(c) => lemma_again(c, records, floor, name, after->0),
            None => lemma_from_nothing(records, floor, name, after->0),
        }
    }
}

/// Whether what a write left in the immutable segments differs from what they held before
/// only where the write decides anew, or gives a payload.
pub open spec fn overtaken(before: Map<IdView, Entry>, after: Map<IdView, Entry>, op: OpView, dim: nat) -> bool {
    forall|id: IdView| #[trigger] agree(before, after, id) || overtakes(before, after, op, dim, id)
}

/// Whether a write decides anew about a point, or gives it a payload.
pub open spec fn overtakes(
    before: Map<IdView, Entry>,
    after: Map<IdView, Entry>,
    op: OpView,
    dim: nat,
    id: IdView,
) -> bool {
    match op {
        OpView::Upsert { points, .. } => all_fit(points, dim) && writes(points, id),
        OpView::Delete { ids, .. } => ids.contains(id),
        OpView::Pay { ids, .. } => ids.contains(id) && before.contains_key(id)
            && after.contains_key(id) && before[id].vector == after[id].vector,
        _ => false,
    }
}

/// A write that is in the log may or may not have reached the immutable segments: replaying
/// the log leads to the same.
pub proof fn law_write_reaches_segments(
    before: Kept,
    after: Kept,
    records: Seq<RecordView>,
    floor: u64,
    name: Seq<char>,
    last: RecordView,
)
    requires
        before.config == after.config,
        last.lsn > floor,
        subject(last.op) == name,
        overtaken(before.points, after.points, last.op, before.config.dim as nat),
    ensures
        settled_kept(replayed(Some(after), records.push(last), floor, name)) == settled_kept(
            replayed(Some(before), records.push(last), floor, name),
        ),
{
    let all = records.push(last);
    assert(all.drop_last() =~= records);
    if dropped(all, floor, name) {
        lemma_dropped(Some(after), Some(before), all, floor, name);
    } else {
        lemma_stays(before, all, floor, name);
        lemma_stays(after, all, floor, name);
        let x = replayed(Some(before), all, floor, name)->0;
        let y = replayed(Some(after), all, floor, name)->0;
        assert forall|id: IdView| #[trigger] agree(y.points, x.points, id) by {
            lemma_compare(after, before, all, floor, name, id);
            if !agree(before.points, after.points, id) {
                assert(overtakes(
                    before.points,
                    after.points,
                    last.op,
                    before.config.dim as nat,
                    id,
                ));
                match last.op {
                    OpView::Pay { ids, .. } => {
                        assert(paid(all, floor, name, id));
                    },
                    _ => {
                        assert(resets(last.op, id, before.config.dim as nat));
                        assert(fixed(
                            Some(after),
                            all,
                            floor,
                            name,
                            id,
                            before.config.dim as nat,
                        ));
                    },
                }
            }
        }
        lemma_settled_same(y, x);
    }
}

} // verus!
