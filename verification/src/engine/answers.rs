//! What reading a collection promises as a whole.

use vstd::prelude::*;

use crate::engine::read::{listing, listings, next_page, page, page_size};
use crate::engine::search::{
    ahead, all_hits, first_hits, hits_of, reaching, sorts, wanted, Hit,
};
use crate::engine::view::{disjoint, held, layered, CollView};
use crate::filter::{passes, Condition};
use crate::float::{at_most, below, law_negation, law_orders_agree, nan, rank};
use crate::id::IdView;
use crate::index::flat::{
    eligible, kept_of, law_best_are_kept, merit, outdone, row_scores, with_scores,
};
use crate::index::presents;
use crate::kernel::{Kernel, Metric};
use crate::query::{Query, ScoredPoint};
use crate::segment::data::SegmentCore;
use crate::segment::immutable::{law_exact_store, ImmutableSegment};
use crate::segment::{indexed, live_of, Entry, Row};

verus! {

// ------------------------------------------------------------ pages

/// Turning pages shows everything once: a page, and what is listed from the offset that it
/// gives on, are what is listed from its own offset on. The last page shows all the rest.
pub proof fn law_pages_join(all: Seq<Row>, offset: nat, limit: nat)
    requires
        limit > 0,
        offset <= all.len(),
    ensures
        offset + limit < all.len() ==> page(all, offset, limit) + all.skip((offset + limit) as int)
            == all.skip(offset as int) && page(all, offset, limit).len() == limit,
        offset + limit >= all.len() ==> page(all, offset, limit) == all.skip(offset as int),
{
    if offset + limit < all.len() {
        assert(page(all, offset, limit) + all.skip((offset + limit) as int) =~= all.skip(
            offset as int,
        ));
    } else {
        assert(page(all, offset, limit) =~= all.skip(offset as int));
    }
}

/// A page shows the points from its offset on, in order: as many as were asked for and at least one,
/// or all that are left if these are fewer.
pub proof fn law_page_shows(all: Seq<Row>, offset: nat, limit: usize)
    ensures
        ({
            let r = page(all, offset, page_size(limit));
            let most: int = if limit == 0 { 1 } else { limit as int };
            &&& r.len() == (if offset >= all.len() {
                0
            } else if all.len() - offset < most {
                all.len() - offset
            } else {
                most
            })
            &&& forall|i: int| 0 <= i < r.len() ==> #[trigger] r[i] == all[offset + i]
        }),
{
}

/// A page says where the next one starts exactly if there are points behind those that it shows, and
/// the next one starts with the first of them.
pub proof fn law_next_page(all: Seq<Row>, offset: u64, limit: usize)
    requires
        all.len() <= u64::MAX,
    ensures
        ({
            let shown = page(all, offset as nat, page_size(limit));
            match next_page(all.len(), offset, limit) {
                Some(next) => next == offset + shown.len() && next < all.len() && shown.len() > 0,
                None => offset + shown.len() >= all.len(),
            }
        }),
{
}

/// Whether one row is listed before another: those in memory come first, then those of the newer
/// segment, and those of a segment in their order.
pub open spec fn listed_before(view: CollView, x: Row, y: Row) -> bool {
    exists|p: int, i: int, q: int, j: int|
        #![trigger rows_at(view, p)[i], rows_at(view, q)[j]]
        0 <= p <= view.immutables@.len() && 0 <= q <= view.immutables@.len() && 0 <= i < rows_at(
            view,
            p,
        ).len() && 0 <= j < rows_at(view, q).len() && rows_at(view, p)[i] == x && rows_at(
            view,
            q,
        )[j] == y && ((p == q && i < j) || (p == 0 && q > 0) || p > q > 0)
}

/// A listing shows the rows in memory first, then those of the segments from the newest to the
/// oldest, and those of each segment in their order.
pub proof fn law_listing_order(view: CollView, filter: Option<Condition>, a: int, b: int)
    requires
        0 <= a < b < view.listed(filter).len(),
    ensures
        listed_before(view, view.listed(filter)[a], view.listed(filter)[b]),
{
    let m = view.mutable;
    let segs = view.immutables@;
    let n = m.rows().len();
    let first = listing(m.rows(), m.dead(), filter, n);
    let more = listings(segs, filter);
    let x = view.listed(filter)[a];
    let y = view.listed(filter)[b];
    if b < first.len() {
        let (i, j) = lemma_listing_pair(m.rows(), m.dead(), filter, n, a, b);
        assert(rows_at(view, 0)[i] == x && rows_at(view, 0)[j] == y);
    } else if a < first.len() {
        let i = lemma_listing_one(m.rows(), m.dead(), filter, n, a);
        let (t, j) = lemma_listings_one(segs, filter, b - first.len());
        assert(more[b - first.len()] == y);
        assert(rows_at(view, 0)[i] == x && rows_at(view, t + 1)[j] == y);
    } else {
        let (u, i, t, j) = lemma_listings_pair(segs, filter, a - first.len(), b - first.len());
        assert(more[a - first.len()] == x && more[b - first.len()] == y);
        assert(rows_at(view, u + 1)[i] == x && rows_at(view, t + 1)[j] == y);
    }
}

proof fn lemma_listing_one(
    rows: Seq<Row>,
    dead: Set<u32>,
    filter: Option<Condition>,
    n: nat,
    a: int,
) -> (i: int)
    requires
        n <= rows.len(),
        0 <= a < listing(rows, dead, filter, n).len(),
    ensures
        0 <= i < n,
        listing(rows, dead, filter, n)[a] == rows[i],
    decreases n,
{
    let before = listing(rows, dead, filter, (n - 1) as nat);
    if a < before.len() {
        lemma_listing_one(rows, dead, filter, (n - 1) as nat, a)
    } else {
        n - 1
    }
}

proof fn lemma_listing_pair(
    rows: Seq<Row>,
    dead: Set<u32>,
    filter: Option<Condition>,
    n: nat,
    a: int,
    b: int,
) -> (r: (int, int))
    requires
        n <= rows.len(),
        0 <= a < b < listing(rows, dead, filter, n).len(),
    ensures
        0 <= r.0 < r.1 < n,
        listing(rows, dead, filter, n)[a] == rows[r.0],
        listing(rows, dead, filter, n)[b] == rows[r.1],
    decreases n,
{
    let before = listing(rows, dead, filter, (n - 1) as nat);
    if b < before.len() {
        lemma_listing_pair(rows, dead, filter, (n - 1) as nat, a, b)
    } else {
        let i = lemma_listing_one(rows, dead, filter, (n - 1) as nat, a);
        (i, n - 1)
    }
}

proof fn lemma_listings_one(segs: Seq<ImmutableSegment>, filter: Option<Condition>, a: int) -> (r: (
    int,
    int,
))
    requires
        0 <= a < listings(segs, filter).len(),
    ensures
        0 <= r.0 < segs.len(),
        0 <= r.1 < segs[r.0].rows().len(),
        listings(segs, filter)[a] == segs[r.0].rows()[r.1],
    decreases segs.len(),
{
    let seg = segs.last();
    let head = listing(seg.rows(), seg.dead(), filter, seg.rows().len());
    if a < head.len() {
        let i = lemma_listing_one(seg.rows(), seg.dead(), filter, seg.rows().len(), a);
        (segs.len() - 1, i)
    } else {
        let r = lemma_listings_one(segs.drop_last(), filter, a - head.len());
        assert(segs.drop_last()[r.0] == segs[r.0]);
        r
    }
}

proof fn lemma_listings_pair(
    segs: Seq<ImmutableSegment>,
    filter: Option<Condition>,
    a: int,
    b: int,
) -> (r: (int, int, int, int))
    requires
        0 <= a < b < listings(segs, filter).len(),
    ensures
        0 <= r.0 < segs.len(),
        0 <= r.2 < segs.len(),
        0 <= r.1 < segs[r.0].rows().len(),
        0 <= r.3 < segs[r.2].rows().len(),
        listings(segs, filter)[a] == segs[r.0].rows()[r.1],
        listings(segs, filter)[b] == segs[r.2].rows()[r.3],
        r.0 > r.2 || (r.0 == r.2 && r.1 < r.3),
    decreases segs.len(),
{
    let seg = segs.last();
    let n = seg.rows().len();
    let head = listing(seg.rows(), seg.dead(), filter, n);
    let rest = segs.drop_last();
    let last = segs.len() - 1;
    if b < head.len() {
        let (i, j) = lemma_listing_pair(seg.rows(), seg.dead(), filter, n, a, b);
        (last, i, last, j)
    } else if a < head.len() {
        let i = lemma_listing_one(seg.rows(), seg.dead(), filter, n, a);
        let (t, j) = lemma_listings_one(rest, filter, b - head.len());
        assert(rest[t] == segs[t]);
        (last, i, t, j)
    } else {
        let r = lemma_listings_pair(rest, filter, a - head.len(), b - head.len());
        assert(rest[r.0] == segs[r.0] && rest[r.2] == segs[r.2]);
        r
    }
}

/// Whether a row of a table is listed.
spec fn is_listed(rows: Seq<Row>, dead: Set<u32>, filter: Option<Condition>, i: int) -> bool {
    !dead.contains(i as u32) && passes(filter, rows[i].id, rows[i].payload)
}

/// What the listing of a table says.
proof fn lemma_listing(
    rows: Seq<Row>,
    index: Map<IdView, u32>,
    dead: Set<u32>,
    filter: Option<Condition>,
    n: nat,
)
    requires
        indexed(rows, index),
        n <= rows.len(),
        rows.len() <= u32::MAX,
    ensures
        forall|a: int|
            0 <= a < listing(rows, dead, filter, n).len() ==> exists|i: int|
                0 <= i < n && is_listed(rows, dead, filter, i) && rows[i] == #[trigger] listing(
                    rows,
                    dead,
                    filter,
                    n,
                )[a],
        forall|i: int|
            0 <= i < n && is_listed(rows, dead, filter, i) ==> listing(
                rows,
                dead,
                filter,
                n,
            ).contains(#[trigger] rows[i]),
        forall|a: int, b: int|
            0 <= a < b < listing(rows, dead, filter, n).len() ==> (#[trigger] listing(
                rows,
                dead,
                filter,
                n,
            )[a]).id != (#[trigger] listing(rows, dead, filter, n)[b]).id,
    decreases n,
{
    if n > 0 {
        let m = (n - 1) as nat;
        lemma_listing(rows, index, dead, filter, m);
        let before = listing(rows, dead, filter, m);
        let all = listing(rows, dead, filter, n);
        assert forall|a: int| 0 <= a < all.len() implies exists|i: int|
            0 <= i < n && is_listed(rows, dead, filter, i) && rows[i] == #[trigger] all[a] by {
            if a < before.len() {
                assert(all[a] == before[a]);
                let i = choose|i: int|
                    0 <= i < m && is_listed(rows, dead, filter, i) && rows[i] == before[a];
                assert(is_listed(rows, dead, filter, i));
            } else {
                assert(is_listed(rows, dead, filter, m as int));
            }
        }
        assert forall|i: int| 0 <= i < n && is_listed(rows, dead, filter, i) implies all.contains(
            #[trigger] rows[i],
        ) by {
            if i < m {
                assert(before.contains(rows[i]));
                let a = choose|a: int| 0 <= a < before.len() && before[a] == rows[i];
                assert(all[a] == rows[i]);
            } else {
                assert(all[before.len() as int] == rows[i]);
            }
        }
        assert forall|a: int, b: int| 0 <= a < b < all.len() implies (#[trigger] all[a]).id != (
        #[trigger] all[b]).id by {
            assert(all[a] == before[a]);
            if b < before.len() {
                assert(all[b] == before[b]);
            } else {
                let i = choose|i: int|
                    0 <= i < m && is_listed(rows, dead, filter, i) && rows[i] == before[a];
                assert(index[rows[i].id] == i);
                assert(index[rows[m as int].id] == m);
            }
        }
    }
}

/// What the listing of one table says about a point.
proof fn lemma_listing_point(
    rows: Seq<Row>,
    index: Map<IdView, u32>,
    dead: Set<u32>,
    filter: Option<Condition>,
    id: IdView,
)
    requires
        indexed(rows, index),
        rows.len() <= u32::MAX,
    ensures
        ({
            let live = live_of(rows, index, dead);
            let all = listing(rows, dead, filter, rows.len());
            &&& live.contains_key(id) && passes(filter, id, live[id].payload) ==> exists|a: int|
                0 <= a < all.len() && (#[trigger] all[a]).id == id && all[a].entry() == live[id]
            &&& forall|a: int|
                0 <= a < all.len() && (#[trigger] all[a]).id == id ==> live.contains_key(id)
                    && live[id] == all[a].entry() && passes(filter, id, all[a].payload)
        }),
{
    let live = live_of(rows, index, dead);
    let all = listing(rows, dead, filter, rows.len());
    lemma_listing(rows, index, dead, filter, rows.len());
    if live.contains_key(id) && passes(filter, id, live[id].payload) {
        let i = index[id] as int;
        assert(is_listed(rows, dead, filter, i));
        assert(all.contains(rows[i]));
        let a = choose|a: int| 0 <= a < all.len() && all[a] == rows[i];
        assert(all[a].id == id);
    }
    assert forall|a: int| 0 <= a < all.len() && (#[trigger] all[a]).id == id implies live.contains_key(
        id,
    ) && live[id] == all[a].entry() && passes(filter, id, all[a].payload) by {
        let i = choose|i: int|
            0 <= i < rows.len() && is_listed(rows, dead, filter, i) && rows[i] == all[a];
        assert(index[rows[i].id] == i);
    }
}

/// Whether a point is listed, with what is kept of it.
pub open spec fn lists(all: Seq<Row>, id: IdView, entry: Entry) -> bool {
    exists|a: int| 0 <= a < all.len() && (#[trigger] all[a]).id == id && all[a].entry() == entry
}

/// Whether no point is listed twice.
pub open spec fn lists_once(all: Seq<Row>) -> bool {
    forall|a: int, b: int|
        0 <= a < b < all.len() ==> (#[trigger] all[a]).id != (#[trigger] all[b]).id
}

/// What the listing of the immutable segments says.
proof fn lemma_listings(segs: Seq<ImmutableSegment>, filter: Option<Condition>)
    requires
        disjoint(segs),
        forall|i: int| 0 <= i < segs.len() ==> (#[trigger] segs[i]).valid(),
    ensures
        lists_once(listings(segs, filter)),
        forall|id: IdView|
            layered(segs).contains_key(id) && passes(filter, id, layered(segs)[id].payload)
                ==> #[trigger] lists(listings(segs, filter), id, layered(segs)[id]),
        forall|a: int|
            0 <= a < listings(segs, filter).len() ==> {
                let row = #[trigger] listings(segs, filter)[a];
                held(segs, row.id) && layered(segs).contains_key(row.id) && layered(segs)[row.id]
                    == row.entry() && passes(filter, row.id, row.payload)
            },
    decreases segs.len(),
{
    if segs.len() > 0 {
        let rest = segs.drop_last();
        let seg = segs.last();
        let last = segs.len() - 1;
        assert(segs[last].valid());
        seg.lemma_valid();
        assert(disjoint(rest)) by {
            assert forall|i: int, j: int, id: IdView|
                #![trigger rest[i].live().contains_key(id), rest[j].live().contains_key(id)]
                0 <= i < j < rest.len() && rest[i].live().contains_key(
                    id,
                ) implies !rest[j].live().contains_key(id) by {
                assert(segs[i].live().contains_key(id));
                if rest[j].live().contains_key(id) {
                    assert(segs[j].live().contains_key(id));
                }
            }
        }
        assert forall|i: int| 0 <= i < rest.len() implies (#[trigger] rest[i]).valid() by {
            assert(segs[i].valid());
        }
        lemma_listings(rest, filter);
        let first = listing(seg.rows(), seg.dead(), filter, seg.rows().len());
        let more = listings(rest, filter);
        let all = listings(segs, filter);
        assert(all == first + more);
        lemma_listing(seg.rows(), seg.index(), seg.dead(), filter, seg.rows().len());
        // Nothing that is alive in the newest segment is alive in an older one.
        assert forall|id: IdView| #[trigger] seg.live().contains_key(id) implies !held(rest, id) by {
            if held(rest, id) {
                let i = choose|i: int|
                    0 <= i < rest.len() && (#[trigger] rest[i]).live().contains_key(id);
                assert(segs[i].live().contains_key(id));
                assert(segs[last].live().contains_key(id));
            }
        }
        assert(lists_once(all)) by {
            assert forall|a: int, b: int| 0 <= a < b < all.len() implies (#[trigger] all[a]).id != (
            #[trigger] all[b]).id by {
                if b < first.len() {
                    assert(first[a].id != first[b].id);
                } else if a >= first.len() {
                    assert(more[a - first.len()].id != more[b - first.len()].id);
                } else {
                    let id = first[a].id;
                    lemma_listing_point(seg.rows(), seg.index(), seg.dead(), filter, id);
                    assert(first[a].id == id);
                    assert(seg.live().contains_key(id));
                    assert(held(rest, more[b - first.len()].id));
                }
            }
        }
        assert forall|id: IdView|
            layered(segs).contains_key(id) && passes(
                filter,
                id,
                layered(segs)[id].payload,
            ) implies #[trigger] lists(all, id, layered(segs)[id]) by {
            if seg.live().contains_key(id) {
                lemma_listing_point(seg.rows(), seg.index(), seg.dead(), filter, id);
                let a = choose|a: int|
                    0 <= a < first.len() && (#[trigger] first[a]).id == id && first[a].entry()
                        == seg.live()[id];
                assert(all[a] == first[a]);
            } else {
                assert(lists(more, id, layered(rest)[id]));
                let a = choose|a: int|
                    0 <= a < more.len() && (#[trigger] more[a]).id == id && more[a].entry()
                        == layered(rest)[id];
                assert(all[first.len() + a] == more[a]);
            }
        }
        assert forall|a: int| 0 <= a < all.len() implies ({
            let row = #[trigger] all[a];
            held(segs, row.id) && layered(segs).contains_key(row.id) && layered(segs)[row.id]
                == row.entry() && passes(filter, row.id, row.payload)
        }) by {
            let row = all[a];
            if a < first.len() {
                assert(first[a] == row);
                lemma_listing_point(seg.rows(), seg.index(), seg.dead(), filter, row.id);
                assert(segs[last].live().contains_key(row.id));
            } else {
                let b = a - first.len();
                assert(more[b] == row);
                assert(held(rest, row.id));
                let i = choose|i: int|
                    0 <= i < rest.len() && (#[trigger] rest[i]).live().contains_key(row.id);
                assert(segs[i].live().contains_key(row.id));
                if seg.live().contains_key(row.id) {
                    assert(!held(rest, row.id));
                }
            }
        }
    }
}

/// A listing shows every point that is kept and meets the condition, and no other, each of
/// them once.
pub proof fn law_listing_is_complete(view: CollView, filter: Option<Condition>)
    requires
        view.valid(),
        view.apart(),
    ensures
        lists_once(view.listed(filter)),
        forall|id: IdView|
            view.contents().contains_key(id) && passes(filter, id, view.contents()[id].payload)
                ==> #[trigger] lists(view.listed(filter), id, view.contents()[id]),
        forall|a: int|
            0 <= a < view.listed(filter).len() ==> {
                let row = #[trigger] view.listed(filter)[a];
                view.contents().contains_key(row.id) && view.contents()[row.id] == row.entry()
                    && passes(filter, row.id, row.payload)
            },
{
    let m = view.mutable;
    let segs = view.immutables@;
    m.lemma_valid();
    lemma_listings(segs, filter);
    lemma_listing(m.rows(), m.index(), m.dead(), filter, m.rows().len());
    let first = listing(m.rows(), m.dead(), filter, m.rows().len());
    let more = listings(segs, filter);
    let all = view.listed(filter);
    assert(all == first + more);
    assert(lists_once(all)) by {
        assert forall|a: int, b: int| 0 <= a < b < all.len() implies (#[trigger] all[a]).id != (
        #[trigger] all[b]).id by {
            if b < first.len() {
                assert(first[a].id != first[b].id);
            } else if a >= first.len() {
                assert(more[a - first.len()].id != more[b - first.len()].id);
            } else {
                lemma_apart_from(view, first, more, filter, a, b - first.len());
            }
        }
    }
    assert forall|id: IdView|
        view.contents().contains_key(id) && passes(
            filter,
            id,
            view.contents()[id].payload,
        ) implies #[trigger] lists(all, id, view.contents()[id]) by {
        if m.live().contains_key(id) {
            lemma_listing_point(m.rows(), m.index(), m.dead(), filter, id);
            let a = choose|a: int|
                0 <= a < first.len() && (#[trigger] first[a]).id == id && first[a].entry()
                    == m.live()[id];
            assert(all[a] == first[a]);
        } else {
            assert(lists(more, id, layered(segs)[id]));
            let a = choose|a: int|
                0 <= a < more.len() && (#[trigger] more[a]).id == id && more[a].entry() == layered(
                    segs,
                )[id];
            assert(all[first.len() + a] == more[a]);
        }
    }
    assert forall|a: int| 0 <= a < all.len() implies ({
        let row = #[trigger] all[a];
        view.contents().contains_key(row.id) && view.contents()[row.id] == row.entry() && passes(
            filter,
            row.id,
            row.payload,
        )
    }) by {
        let row = all[a];
        lemma_listing_point(m.rows(), m.index(), m.dead(), filter, row.id);
        if a < first.len() {
            assert(first[a] == row);
        } else {
            let b = a - first.len();
            assert(more[b] == row);
            assert(held(segs, row.id));
            let i = choose|i: int|
                0 <= i < segs.len() && (#[trigger] segs[i]).live().contains_key(row.id);
            assert(!m.index().contains_key(row.id));
        }
    }
}

/// No row of the mutable segment has the identifier of one that is listed of the others.
proof fn lemma_apart_from(
    view: CollView,
    first: Seq<Row>,
    more: Seq<Row>,
    filter: Option<Condition>,
    a: int,
    b: int,
)
    requires
        view.valid(),
        view.apart(),
        first == listing(
            view.mutable.rows(),
            view.mutable.dead(),
            filter,
            view.mutable.rows().len(),
        ),
        more == listings(view.immutables@, filter),
        0 <= a < first.len(),
        0 <= b < more.len(),
    ensures
        first[a].id != more[b].id,
{
    let m = view.mutable;
    let segs = view.immutables@;
    m.lemma_valid();
    lemma_listings(segs, filter);
    lemma_listing(m.rows(), m.index(), m.dead(), filter, m.rows().len());
    let i = choose|i: int|
        0 <= i < m.rows().len() && is_listed(m.rows(), m.dead(), filter, i) && m.rows()[i]
            == first[a];
    assert(m.index().contains_key(m.rows()[i].id));
    let row = more[b];
    assert(held(segs, row.id));
    let j = choose|j: int| 0 <= j < segs.len() && (#[trigger] segs[j]).live().contains_key(row.id);
    assert(!m.index().contains_key(row.id));
}

// ------------------------------------------------------------ queries

/// The rows of a segment: the mutable one for zero, else an immutable one.
pub open spec fn rows_at(view: CollView, place: int) -> Seq<Row> {
    if place == 0 {
        view.mutable.rows()
    } else {
        view.immutables@[place - 1].rows()
    }
}

/// The deleted rows of a segment.
pub open spec fn dead_at(view: CollView, place: int) -> Set<u32> {
    if place == 0 {
        view.mutable.dead()
    } else {
        view.immutables@[place - 1].dead()
    }
}

/// The vectors and norms of a segment.
pub open spec fn store_at(view: CollView, place: int) -> SegmentCore {
    if place == 0 {
        view.mutable.store()
    } else {
        view.immutables@[place - 1].store()
    }
}

/// The scores of the rows of a segment for a vector.
pub open spec fn scores_at<N, S>(
    view: CollView,
    metric: Metric,
    kernel: Kernel<N, S>,
    v: Seq<u32>,
    place: int,
) -> spec_fn(u32) -> u32 where
    N: Fn(&[u32]) -> u32,
    S: Fn(Metric, &[u32], u32, &[u32], u32) -> u32,
 {
    let data = store_at(view, place);
    row_scores(kernel, metric, data.vectors@, data.norms@, data.dim as int, v)
}

/// Whether a hit is a row that a query chooses from, with its score.
pub open spec fn is_hit<N, S>(
    view: CollView,
    metric: Metric,
    kernel: Kernel<N, S>,
    q: Query,
    v: Seq<u32>,
    exclude: Option<IdView>,
    h: Hit,
) -> bool where N: Fn(&[u32]) -> u32, S: Fn(Metric, &[u32], u32, &[u32], u32) -> u32 {
    &&& h.place <= view.immutables@.len()
    &&& h.idx < rows_at(view, h.place as int).len()
    &&& wanted(
        rows_at(view, h.place as int),
        dead_at(view, h.place as int),
        q.filter,
        exclude,
    )(h.idx)
    &&& h.score == scores_at(view, metric, kernel, v, h.place as int)(h.idx)
}

/// What the search of each segment gives.
pub proof fn lemma_outs<N, S>(
    view: CollView,
    metric: Metric,
    kernel: Kernel<N, S>,
    q: Query,
    v: Seq<u32>,
    exclude: Option<IdView>,
    outs: Seq<Seq<(u32, u32)>>,
    p: int,
) where N: Fn(&[u32]) -> u32, S: Fn(Metric, &[u32], u32, &[u32], u32) -> u32
    requires
        view.valid(),
        view.may_answer(metric, kernel, q, v, exclude, outs),
        0 <= p < outs.len(),
    ensures
        presents(
            scores_at(view, metric, kernel, v, p),
            wanted(rows_at(view, p), dead_at(view, p), q.filter, exclude),
            metric,
            q.top_k as nat,
            rows_at(view, p).len(),
            outs[p],
        ),
{
    if p == 0 {
        view.mutable.lemma_valid();
        law_exact_store(
            view.mutable.store(),
            metric,
            kernel,
            v,
            q.top_k as nat,
            wanted(view.mutable.rows(), view.mutable.dead(), q.filter, exclude),
            outs[0],
        );
    } else {
        let seg = view.immutables@[p - 1];
        assert(seg.valid());
        assert(outs[p - 1 + 1] == outs[p]);
        seg.law_search_presents(
            metric,
            kernel,
            v,
            q.top_k as nat,
            wanted(seg.rows(), seg.dead(), q.filter, exclude),
            outs[p],
        );
    }
}

/// What the hits of all segments say.
pub proof fn lemma_all_hits<N, S>(
    view: CollView,
    metric: Metric,
    kernel: Kernel<N, S>,
    q: Query,
    v: Seq<u32>,
    exclude: Option<IdView>,
    outs: Seq<Seq<(u32, u32)>>,
    n: int,
) where N: Fn(&[u32]) -> u32, S: Fn(Metric, &[u32], u32, &[u32], u32) -> u32
    requires
        view.valid(),
        view.may_answer(metric, kernel, q, v, exclude, outs),
        0 <= n <= outs.len(),
        outs.len() <= usize::MAX + 1,
    ensures
        ({
            let all = all_hits(outs.take(n));
            &&& forall|i: int|
                0 <= i < all.len() ==> is_hit(
                    view,
                    metric,
                    kernel,
                    q,
                    v,
                    exclude,
                    #[trigger] all[i],
                ) && all[i].place < n
            &&& all.no_duplicates()
            &&& forall|p: int, j: int|
                0 <= p < n && 0 <= j < outs[p].len() ==> all.contains(
                    Hit {
                        score: (#[trigger] outs[p][j]).1,
                        place: p as usize,
                        idx: outs[p][j].0,
                    },
                )
        }),
    decreases n,
{
    let all = all_hits(outs.take(n));
    if n > 0 {
        lemma_all_hits(view, metric, kernel, q, v, exclude, outs, n - 1);
        assert(outs.take(n).drop_last() =~= outs.take(n - 1));
        assert(outs.take(n).last() == outs[n - 1]);
        let before = all_hits(outs.take(n - 1));
        let place = (n - 1) as usize;
        let out = outs[n - 1];
        let new = hits_of(out, place);
        assert(all == before + new);
        lemma_outs(view, metric, kernel, q, v, exclude, outs, n - 1);
        assert forall|i: int| 0 <= i < all.len() implies is_hit(
            view,
            metric,
            kernel,
            q,
            v,
            exclude,
            #[trigger] all[i],
        ) && all[i].place < n by {
            if i < before.len() {
                assert(all[i] == before[i]);
            } else {
                let j = i - before.len();
                assert(all[i] == new[j]);
                assert(out[j].0 < rows_at(view, n - 1).len());
            }
        }
        assert forall|i: int, j: int| 0 <= i < all.len() && 0 <= j < all.len() && i != j implies all[i]
            != all[j] by {
            if i < before.len() && j < before.len() {
                assert(before[i] != before[j]);
            } else if i >= before.len() && j >= before.len() {
                let a = i - before.len();
                let b = j - before.len();
                assert(all[i] == new[a] && all[j] == new[b]);
                if a < b {
                    assert(rank(metric.key(out[a].1)) < rank(metric.key(out[b].1)) || (out[a].1
                        == out[b].1 && out[a].0 < out[b].0));
                } else {
                    assert(rank(metric.key(out[b].1)) < rank(metric.key(out[a].1)) || (out[b].1
                        == out[a].1 && out[b].0 < out[a].0));
                }
            } else if i < before.len() {
                assert(before[i].place < n - 1);
                assert(all[j] == new[j - before.len()]);
            } else {
                assert(before[j].place < n - 1);
                assert(all[i] == new[i - before.len()]);
            }
        }
        assert forall|p: int, j: int| 0 <= p < n && 0 <= j < outs[p].len() implies all.contains(
            Hit { score: (#[trigger] outs[p][j]).1, place: p as usize, idx: outs[p][j].0 },
        ) by {
            let h = Hit { score: outs[p][j].1, place: p as usize, idx: outs[p][j].0 };
            if p < n - 1 {
                assert(before.contains(h));
                let a = choose|a: int| 0 <= a < before.len() && before[a] == h;
                assert(all[a] == h);
            } else {
                assert(new[j] == h);
                assert(all[before.len() + j] == h);
            }
        }
    }
}

/// Whether a hit comes before another in a list.
#[verifier::opaque]
pub open spec fn precedes(hits: Seq<Hit>, x: Hit, y: Hit) -> bool {
    exists|a: int, b: int|
        0 <= a < b < hits.len() && #[trigger] hits[a] == x && #[trigger] hits[b] == y
}

/// The hits that reach a threshold are some of the hits, in the same order.
pub proof fn lemma_reaching(metric: Metric, hits: Seq<Hit>, threshold: Option<u32>)
    ensures
        ({
            let r = reaching(metric, hits, threshold);
            &&& r.len() <= hits.len()
            &&& forall|i: int|
                0 <= i < r.len() ==> hits.contains(#[trigger] r[i]) && (threshold is Some
                    ==> metric.meets(r[i].score, threshold->0))
            &&& forall|i: int, j: int|
                0 <= i < j < r.len() ==> precedes(hits, #[trigger] r[i], #[trigger] r[j])
            &&& threshold is None ==> r == hits
        }),
    decreases hits.len(),
{
    let r = reaching(metric, hits, threshold);
    if hits.len() > 0 {
        let rest = hits.drop_last();
        let before = reaching(metric, rest, threshold);
        lemma_reaching(metric, rest, threshold);
        assert forall|i: int| 0 <= i < r.len() implies hits.contains(#[trigger] r[i]) && (
        threshold is Some ==> metric.meets(r[i].score, threshold->0)) by {
            if i < before.len() {
                assert(r[i] == before[i]);
                let a = choose|a: int| 0 <= a < rest.len() && rest[a] == before[i];
                assert(hits[a] == r[i]);
            } else {
                assert(hits[hits.len() - 1] == r[i]);
            }
        }
        assert forall|i: int, j: int| 0 <= i < j < r.len() implies precedes(
            hits,
            #[trigger] r[i],
            #[trigger] r[j],
        ) by {
            reveal(precedes);
            assert(r[i] == before[i]);
            if j < before.len() {
                assert(r[j] == before[j]);
                assert(precedes(rest, before[i], before[j]));
                let (a, b) = choose|a: int, b: int|
                    0 <= a < b < rest.len() && #[trigger] rest[a] == before[i]
                        && #[trigger] rest[b] == before[j];
                assert(hits[a] == r[i] && hits[b] == r[j]);
            } else {
                assert(rest.contains(before[i]));
                let a = choose|a: int| 0 <= a < rest.len() && rest[a] == before[i];
                assert(hits[a] == r[i] && hits[hits.len() - 1] == r[j]);
            }
        }
        if threshold is None {
            assert(r =~= hits);
        }
    }
}

/// Whether a result is a point that a query chooses from.
pub open spec fn answers_with<N, S>(
    view: CollView,
    metric: Metric,
    kernel: Kernel<N, S>,
    q: Query,
    v: Seq<u32>,
    exclude: Option<IdView>,
    p: ScoredPoint,
) -> bool where N: Fn(&[u32]) -> u32, S: Fn(Metric, &[u32], u32, &[u32], u32) -> u32 {
    exists|h: Hit| #[trigger]
        is_hit(view, metric, kernel, q, v, exclude, h) && rows_at(
            view,
            h.place as int,
        )[h.idx as int].id == p.id@ && h.score == p.score
}

/// What a query gives are at most `top_k` points that are alive, meet the condition, are not
/// the one that is left out, and reach the threshold. They come with their scores, the best
/// first, and no point comes twice.
pub proof fn law_answers<N, S>(
    view: CollView,
    metric: Metric,
    kernel: Kernel<N, S>,
    q: Query,
    v: Seq<u32>,
    exclude: Option<IdView>,
    out: Seq<ScoredPoint>,
) where N: Fn(&[u32]) -> u32, S: Fn(Metric, &[u32], u32, &[u32], u32) -> u32
    requires
        view.valid(),
        view.may_give(metric, kernel, q, v, exclude, out),
    ensures
        out.len() <= q.top_k,
        forall|i: int|
            0 <= i < out.len() ==> answers_with(
                view,
                metric,
                kernel,
                q,
                v,
                exclude,
                #[trigger] out[i],
            ) && (q.score_threshold is Some ==> metric.meets(out[i].score, q.score_threshold->0)),
        forall|i: int, j: int|
            0 <= i < j < out.len() ==> rank(metric.key((#[trigger] out[i]).score)) <= rank(
                metric.key((#[trigger] out[j]).score),
            ),
        view.apart() ==> forall|i: int, j: int|
            0 <= i < j < out.len() ==> (#[trigger] out[i]).id@ != (#[trigger] out[j]).id@,
{
    let (outs, sorted) = choose|outs: Seq<Seq<(u32, u32)>>, sorted: Seq<Hit>| #[trigger]
        view.may_answer(metric, kernel, q, v, exclude, outs) && #[trigger] sorts(
            metric,
            all_hits(outs),
            sorted,
        ) && view.reports(
            q,
            reaching(metric, first_hits(sorted, q.top_k as nat), q.score_threshold),
            out,
        );
    let all = all_hits(outs);
    let first = first_hits(sorted, q.top_k as nat);
    let r = reaching(metric, first, q.score_threshold);
    assert(view.immutables.len() <= usize::MAX);
    assert(outs.take(outs.len() as int) =~= outs);
    lemma_all_hits(view, metric, kernel, q, v, exclude, outs, outs.len() as int);
    lemma_reaching(metric, first, q.score_threshold);
    lemma_sorted(metric, all, sorted);
    assert forall|i: int| 0 <= i < r.len() implies sorted.contains(#[trigger] r[i]) && all.contains(
        r[i],
    ) && is_hit(view, metric, kernel, q, v, exclude, r[i]) by {
        assert(first.contains(r[i]));
        let a = choose|a: int| 0 <= a < first.len() && first[a] == r[i];
        assert(sorted[a] == r[i]);
        assert(all.contains(sorted[a]));
        let b = choose|b: int| 0 <= b < all.len() && all[b] == r[i];
        assert(is_hit(view, metric, kernel, q, v, exclude, all[b]));
    }
    assert forall|i: int| 0 <= i < out.len() implies answers_with(
        view,
        metric,
        kernel,
        q,
        v,
        exclude,
        #[trigger] out[i],
    ) && (q.score_threshold is Some ==> metric.meets(out[i].score, q.score_threshold->0)) by {
        let h = r[i];
        assert(is_hit(view, metric, kernel, q, v, exclude, h));
        assert(view.row_at(h) == rows_at(view, h.place as int)[h.idx as int]);
    }
    assert forall|i: int, j: int| 0 <= i < j < out.len() implies rank(
        metric.key((#[trigger] out[i]).score),
    ) <= rank(metric.key((#[trigger] out[j]).score)) by {
        assert(precedes(first, r[i], r[j]));
        reveal(precedes);
        let (a, b) = choose|a: int, b: int|
            0 <= a < b < first.len() && #[trigger] first[a] == r[i] && #[trigger] first[b] == r[j];
        assert(sorted[a] == r[i] && sorted[b] == r[j]);
        assert(!ahead(metric, sorted[b], sorted[a]));
        law_negation(r[i].score, r[j].score);
        law_negation(r[j].score, r[i].score);
    }
    if view.apart() {
        assert forall|i: int, j: int| 0 <= i < j < out.len() implies (#[trigger] out[i]).id@ != (
        #[trigger] out[j]).id@ by {
            assert(precedes(first, r[i], r[j]));
            reveal(precedes);
            let (a, b) = choose|a: int, b: int|
                0 <= a < b < first.len() && #[trigger] first[a] == r[i] && #[trigger] first[b]
                    == r[j];
            assert(sorted[a] == r[i] && sorted[b] == r[j]);
            assert(r[i] != r[j]);
            lemma_hits_differ(view, metric, kernel, q, v, exclude, r[i], r[j]);
            assert(view.row_at(r[i]) == rows_at(view, r[i].place as int)[r[i].idx as int]);
            assert(view.row_at(r[j]) == rows_at(view, r[j].place as int)[r[j].idx as int]);
        }
    }
}

/// Sorting loses nothing, and adds nothing.
pub proof fn lemma_sorted(metric: Metric, hits: Seq<Hit>, sorted: Seq<Hit>)
    requires
        sorts(metric, hits, sorted),
        hits.no_duplicates(),
    ensures
        sorted.no_duplicates(),
        sorted.len() == hits.len(),
        forall|h: Hit| sorted.contains(h) <==> #[trigger] hits.contains(h),
        forall|i: int| 0 <= i < sorted.len() ==> hits.contains(#[trigger] sorted[i]),
{
    broadcast use vstd::seq_lib::group_to_multiset_ensures;
    hits.lemma_multiset_has_no_duplicates();
    sorted.lemma_multiset_has_no_duplicates_conv();
    assert(sorted.to_multiset().len() == hits.to_multiset().len());
    assert forall|h: Hit| sorted.contains(h) <==> #[trigger] hits.contains(h) by {
        assert(sorted.to_multiset().count(h) == hits.to_multiset().count(h));
    }
    assert forall|i: int| 0 <= i < sorted.len() implies hits.contains(#[trigger] sorted[i]) by {
        assert(sorted.contains(sorted[i]));
    }
}

/// Different hits are those of different points.
proof fn lemma_hits_differ<N, S>(
    view: CollView,
    metric: Metric,
    kernel: Kernel<N, S>,
    q: Query,
    v: Seq<u32>,
    exclude: Option<IdView>,
    g: Hit,
    h: Hit,
) where N: Fn(&[u32]) -> u32, S: Fn(Metric, &[u32], u32, &[u32], u32) -> u32
    requires
        view.valid(),
        view.apart(),
        is_hit(view, metric, kernel, q, v, exclude, g),
        is_hit(view, metric, kernel, q, v, exclude, h),
        g != h,
    ensures
        rows_at(view, g.place as int)[g.idx as int].id != rows_at(
            view,
            h.place as int,
        )[h.idx as int].id,
{
    let a = rows_at(view, g.place as int)[g.idx as int].id;
    let b = rows_at(view, h.place as int)[h.idx as int].id;
    lemma_hit_alive(view, metric, kernel, q, v, exclude, g);
    lemma_hit_alive(view, metric, kernel, q, v, exclude, h);
    if a == b {
        let segs = view.immutables@;
        if g.place == h.place {
            assert(g.idx == h.idx);
            assert(g.score == h.score);
        } else if g.place == 0 {
            assert(segs[h.place - 1].live().contains_key(a));
        } else if h.place == 0 {
            assert(segs[g.place - 1].live().contains_key(a));
        } else if g.place < h.place {
            assert(segs[g.place - 1].live().contains_key(a));
            assert(segs[h.place - 1].live().contains_key(a));
        } else {
            assert(segs[h.place - 1].live().contains_key(a));
            assert(segs[g.place - 1].live().contains_key(a));
        }
    }
}

/// The row of a hit is that of a point that is alive in its segment.
pub proof fn lemma_hit_alive<N, S>(
    view: CollView,
    metric: Metric,
    kernel: Kernel<N, S>,
    q: Query,
    v: Seq<u32>,
    exclude: Option<IdView>,
    h: Hit,
) where N: Fn(&[u32]) -> u32, S: Fn(Metric, &[u32], u32, &[u32], u32) -> u32
    requires
        view.valid(),
        is_hit(view, metric, kernel, q, v, exclude, h),
    ensures
        ({
            let id = rows_at(view, h.place as int)[h.idx as int].id;
            if h.place == 0 {
                view.mutable.index().contains_key(id) && view.mutable.index()[id] == h.idx
            } else {
                let seg = view.immutables@[h.place - 1];
                seg.live().contains_key(id) && seg.index()[id] == h.idx
            }
        }),
{
    if h.place == 0 {
        view.mutable.lemma_valid();
        assert(view.mutable.index().contains_key(view.mutable.rows()[h.idx as int].id));
    } else {
        let seg = view.immutables@[h.place - 1];
        assert(seg.valid());
        seg.lemma_valid();
        assert(seg.rows()[h.idx as int].id == seg.store().rows()[h.idx as int].id);
        assert(seg.index().contains_key(seg.store().rows()[h.idx as int].id));
    }
}

/// A hit in all segments is one in its own.
proof fn lemma_hit_of(outs: Seq<Seq<(u32, u32)>>, h: Hit)
    requires
        all_hits(outs).contains(h),
        outs.len() <= usize::MAX + 1,
    ensures
        h.place < outs.len(),
        outs[h.place as int].contains((h.idx, h.score)),
    decreases outs.len(),
{
    if outs.len() > 0 {
        let rest = outs.drop_last();
        let before = all_hits(rest);
        let last = hits_of(outs.last(), (outs.len() - 1) as usize);
        let i = choose|i: int| 0 <= i < all_hits(outs).len() && all_hits(outs)[i] == h;
        if i < before.len() {
            assert(before[i] == h);
            lemma_hit_of(rest, h);
        } else {
            let j = i - before.len();
            assert(last[j] == h);
            assert(outs.last()[j] == (h.idx, h.score));
        }
    }
}

/// Where no segment has a graph, points whose scores are not numbers are not given.
pub proof fn law_exact_answers_are_numbers<N, S>(
    view: CollView,
    metric: Metric,
    kernel: Kernel<N, S>,
    q: Query,
    v: Seq<u32>,
    exclude: Option<IdView>,
    out: Seq<ScoredPoint>,
) where N: Fn(&[u32]) -> u32, S: Fn(Metric, &[u32], u32, &[u32], u32) -> u32
    requires
        view.valid(),
        view.width() > 0,
        q.top_k > 0,
        forall|i: int|
            0 <= i < view.immutables@.len() ==> (#[trigger] view.immutables@[i]).graph() is None,
        view.may_give(metric, kernel, q, v, exclude, out),
    ensures
        forall|i: int| 0 <= i < out.len() ==> !nan((#[trigger] out[i]).score),
{
    let (outs, sorted) = choose|outs: Seq<Seq<(u32, u32)>>, sorted: Seq<Hit>| #[trigger]
        view.may_answer(metric, kernel, q, v, exclude, outs) && #[trigger] sorts(
            metric,
            all_hits(outs),
            sorted,
        ) && view.reports(
            q,
            reaching(metric, first_hits(sorted, q.top_k as nat), q.score_threshold),
            out,
        );
    let all = all_hits(outs);
    let k = q.top_k as nat;
    let first = first_hits(sorted, k);
    let r = reaching(metric, first, q.score_threshold);
    assert(view.immutables.len() <= usize::MAX);
    assert(outs.take(outs.len() as int) =~= outs);
    lemma_all_hits(view, metric, kernel, q, v, exclude, outs, outs.len() as int);
    lemma_reaching(metric, first, q.score_threshold);
    lemma_sorted(metric, all, sorted);
    assert forall|i: int| 0 <= i < out.len() implies !nan((#[trigger] out[i]).score) by {
        let h = r[i];
        assert(first.contains(h));
        let x = choose|x: int| 0 <= x < first.len() && first[x] == h;
        assert(sorted[x] == h);
        assert(all.contains(h));
        lemma_exact_number(view, metric, kernel, q, v, exclude, outs, h);
    }
}

/// Where no segment has a graph, the scores of hits are numbers.
pub proof fn lemma_exact_number<N, S>(
    view: CollView,
    metric: Metric,
    kernel: Kernel<N, S>,
    q: Query,
    v: Seq<u32>,
    exclude: Option<IdView>,
    outs: Seq<Seq<(u32, u32)>>,
    h: Hit,
) where N: Fn(&[u32]) -> u32, S: Fn(Metric, &[u32], u32, &[u32], u32) -> u32
    requires
        view.valid(),
        view.width() > 0,
        q.top_k > 0,
        forall|i: int|
            0 <= i < view.immutables@.len() ==> (#[trigger] view.immutables@[i]).graph() is None,
        view.may_answer(metric, kernel, q, v, exclude, outs),
        all_hits(outs).contains(h),
    ensures
        !nan(h.score),
{
    let k = q.top_k as nat;
    assert(view.immutables.len() <= usize::MAX);
    lemma_hit_of(outs, h);
    let p = h.place as int;
    let scores = scores_at(view, metric, kernel, v, p);
    let pass = wanted(rows_at(view, p), dead_at(view, p), q.filter, exclude);
    let data = store_at(view, p);
    lemma_store(view, p);
    if p > 0 {
        assert(view.immutables@[p - 1].graph() is None);
        assert(outs[p - 1 + 1] == outs[p]);
    }
    let kept = kept_of(scores, pass, metric, k, data.norms@.len());
    assert(outs[p] == with_scores(metric, kept));
    law_best_are_kept(scores, pass, metric, k, data.norms@.len());
    let j = choose|j: int| 0 <= j < outs[p].len() && outs[p][j] == (h.idx, h.score);
    assert(eligible(scores, pass, data.norms@.len(), kept[j].0));
    law_negation(scores(kept[j].0), scores(kept[j].0));
}

/// Where no segment has a graph, a query without a threshold gives the best points of all: a
/// point that it chooses from and does not give has no better score than any that it gives,
/// and points are left out only once `top_k` are given.
pub proof fn law_exact_answers<N, S>(
    view: CollView,
    metric: Metric,
    kernel: Kernel<N, S>,
    q: Query,
    v: Seq<u32>,
    exclude: Option<IdView>,
    out: Seq<ScoredPoint>,
    h: Hit,
) where N: Fn(&[u32]) -> u32, S: Fn(Metric, &[u32], u32, &[u32], u32) -> u32
    requires
        view.valid(),
        view.width() > 0,
        q.top_k > 0,
        q.score_threshold is None,
        forall|i: int|
            0 <= i < view.immutables@.len() ==> (#[trigger] view.immutables@[i]).graph() is None,
        view.may_give(metric, kernel, q, v, exclude, out),
        is_hit(view, metric, kernel, q, v, exclude, h),
        !nan(h.score),
    ensures
        (exists|i: int|
            0 <= i < out.len() && (#[trigger] out[i]).id@ == rows_at(
                view,
                h.place as int,
            )[h.idx as int].id && out[i].score == h.score) || (out.len() == q.top_k && forall|
            i: int,
        |
            0 <= i < out.len() ==> !metric.better(h.score, (#[trigger] out[i]).score)),
{
    let (outs, sorted) = choose|outs: Seq<Seq<(u32, u32)>>, sorted: Seq<Hit>| #[trigger]
        view.may_answer(metric, kernel, q, v, exclude, outs) && #[trigger] sorts(
            metric,
            all_hits(outs),
            sorted,
        ) && view.reports(
            q,
            reaching(metric, first_hits(sorted, q.top_k as nat), q.score_threshold),
            out,
        );
    let k = q.top_k as nat;
    let first = first_hits(sorted, k);
    let p = h.place as int;
    lemma_reaching(metric, first, q.score_threshold);
    lemma_exact_first(view, metric, kernel, q, v, exclude, outs, sorted, h);
    if first.contains(h) {
        let i = choose|i: int| 0 <= i < first.len() && first[i] == h;
        assert(view.row_at(h) == rows_at(view, p)[h.idx as int]);
        assert(out[i].id@ == rows_at(view, p)[h.idx as int].id);
    } else {
        assert forall|i: int| 0 <= i < out.len() implies !metric.better(
            h.score,
            (#[trigger] out[i]).score,
        ) by {
            assert(!metric.better(h.score, first[i].score));
        }
    }
}

/// Where no segment has a graph, a row that a query chooses from is among the first hits, or there
/// are `top_k` of them and none is worse.
pub proof fn lemma_exact_first<N, S>(
    view: CollView,
    metric: Metric,
    kernel: Kernel<N, S>,
    q: Query,
    v: Seq<u32>,
    exclude: Option<IdView>,
    outs: Seq<Seq<(u32, u32)>>,
    sorted: Seq<Hit>,
    h: Hit,
) where N: Fn(&[u32]) -> u32, S: Fn(Metric, &[u32], u32, &[u32], u32) -> u32
    requires
        view.valid(),
        view.width() > 0,
        q.top_k > 0,
        forall|i: int|
            0 <= i < view.immutables@.len() ==> (#[trigger] view.immutables@[i]).graph() is None,
        view.may_answer(metric, kernel, q, v, exclude, outs),
        sorts(metric, all_hits(outs), sorted),
        is_hit(view, metric, kernel, q, v, exclude, h),
        !nan(h.score),
    ensures
        ({
            let first = first_hits(sorted, q.top_k as nat);
            first.contains(h) || (first.len() == q.top_k && forall|i: int|
                0 <= i < first.len() ==> !metric.better(h.score, (#[trigger] first[i]).score))
        }),
{
    let all = all_hits(outs);
    let k = q.top_k as nat;
    let first = first_hits(sorted, k);
    let p = h.place as int;
    assert(view.immutables.len() <= usize::MAX);
    assert(outs.take(outs.len() as int) =~= outs);
    lemma_all_hits(view, metric, kernel, q, v, exclude, outs, outs.len() as int);
    lemma_sorted(metric, all, sorted);
    let scores = scores_at(view, metric, kernel, v, p);
    let pass = wanted(rows_at(view, p), dead_at(view, p), q.filter, exclude);
    let data = store_at(view, p);
    lemma_store(view, p);
    if p > 0 {
        assert(view.immutables@[p - 1].graph() is None);
        assert(outs[p - 1 + 1] == outs[p]);
    }
    let kept = kept_of(scores, pass, metric, k, data.norms@.len());
    assert(outs[p] == with_scores(metric, kept));
    law_best_are_kept(scores, pass, metric, k, data.norms@.len());
    let s = merit(metric, h.score);
    assert(eligible(scores, pass, data.norms@.len(), h.idx));
    law_negation(h.score, h.score);
    if kept.contains((h.idx, s)) {
        let j = choose|j: int| 0 <= j < kept.len() && kept[j] == (h.idx, s);
        assert(outs[p][j] == (h.idx, merit(metric, s)));
        assert(merit(metric, s) == h.score);
        assert(all.contains(h));
        assert(sorted.contains(h));
        lemma_first_or_behind(metric, sorted, k, h);
        if !first.contains(h) {
            assert forall|i: int| 0 <= i < first.len() implies !metric.better(
                h.score,
                (#[trigger] first[i]).score,
            ) by {
                assert(!ahead(metric, h, first[i]));
                law_orders_agree(first[i].score, h.score);
                law_orders_agree(h.score, first[i].score);
            }
        }
    } else {
        assert(outdone(kept, k, s));
        lemma_full_segment(
            metric,
            scores,
            pass,
            k,
            data.norms@.len(),
            h.score,
            outs,
            all,
            sorted,
            p,
        );
    }
}

/// What a segment of a valid collection is.
pub proof fn lemma_store(view: CollView, p: int)
    requires
        view.valid(),
        0 <= p <= view.immutables@.len(),
    ensures
        store_at(view, p).norms@.len() == rows_at(view, p).len(),
        rows_at(view, p).len() <= u32::MAX,
        store_at(view, p).dim == view.width(),
{
    if p == 0 {
        view.mutable.lemma_valid();
    } else {
        let seg = view.immutables@[p - 1];
        assert(seg.valid() && seg.width() == view.width());
        seg.lemma_valid();
    }
}

/// A hit is among the first ones, or all of these are at least as good.
proof fn lemma_first_or_behind(metric: Metric, sorted: Seq<Hit>, k: nat, h: Hit)
    requires
        sorted.contains(h),
        forall|i: int, j: int|
            0 <= i < j < sorted.len() ==> !ahead(
                metric,
                #[trigger] sorted[j],
                #[trigger] sorted[i],
            ),
    ensures
        first_hits(sorted, k).contains(h) || (first_hits(sorted, k).len() == k && forall|i: int|
            0 <= i < k ==> !ahead(metric, h, #[trigger] first_hits(sorted, k)[i])),
{
    let first = first_hits(sorted, k);
    let a = choose|a: int| 0 <= a < sorted.len() && sorted[a] == h;
    if a < first.len() {
        assert(first[a] == h);
    } else {
        assert forall|i: int| 0 <= i < k implies !ahead(metric, h, #[trigger] first[i]) by {
            assert(first[i] == sorted[i]);
            assert(!ahead(metric, sorted[a], sorted[i]));
        }
    }
}

/// Where a segment gives `k` hits that are at least as good as a score, so are the first `k`
/// of all hits.
proof fn lemma_full_segment(
    metric: Metric,
    scores: spec_fn(u32) -> u32,
    pass: spec_fn(u32) -> bool,
    k: nat,
    n: nat,
    score: u32,
    outs: Seq<Seq<(u32, u32)>>,
    all: Seq<Hit>,
    sorted: Seq<Hit>,
    p: int,
)
    requires
        n <= u32::MAX,
        k > 0,
        !nan(score),
        0 <= p < outs.len(),
        p <= usize::MAX,
        ({
            let kept = kept_of(scores, pass, metric, k, n);
            outs[p] == with_scores(metric, kept) && outdone(kept, k, merit(metric, score))
        }),
        all.no_duplicates(),
        sorts(metric, all, sorted),
        forall|j: int|
            0 <= j < outs[p].len() ==> all.contains(
                Hit { score: (#[trigger] outs[p][j]).1, place: p as usize, idx: outs[p][j].0 },
            ),
    ensures
        first_hits(sorted, k).len() == k,
        forall|i: int|
            0 <= i < k ==> !metric.better(score, (#[trigger] first_hits(sorted, k)[i]).score),
{
    let kept = kept_of(scores, pass, metric, k, n);
    let out = outs[p];
    let mine = hits_of(out, p as usize);
    law_best_are_kept(scores, pass, metric, k, n);
    lemma_sorted(metric, all, sorted);
    // The hits of this segment are different, so there are at least `k` hits.
    assert forall|i: int, j: int| 0 <= i < mine.len() && 0 <= j < mine.len() && i != j implies mine[i]
        != mine[j] by {
        if i < j {
            assert(rank(kept[j].1) < rank(kept[i].1) || (kept[i].1 == kept[j].1 && kept[i].0
                < kept[j].0));
        } else {
            assert(rank(kept[i].1) < rank(kept[j].1) || (kept[j].1 == kept[i].1 && kept[j].0
                < kept[i].0));
        }
        law_negation(kept[i].1, kept[j].1);
        law_negation(kept[j].1, kept[i].1);
    }
    assert(mine.no_duplicates());
    assert forall|h: Hit| #[trigger] mine.contains(h) implies sorted.contains(h) by {
        let j = choose|j: int| 0 <= j < mine.len() && mine[j] == h;
        assert(out[j].1 == h.score);
        assert(all.contains(h));
    }
    lemma_part_len(mine, sorted);
    let first = first_hits(sorted, k);
    assert(first.len() == k);
    // The score is not better than any of theirs.
    assert forall|j: int| 0 <= j < mine.len() implies !metric.better(
        score,
        (#[trigger] mine[j]).score,
    ) && !nan(mine[j].score) by {
        assert(eligible(scores, pass, n, kept[j].0));
        assert(kept[j].1 == merit(metric, scores(kept[j].0)));
        assert(eligible(scores, pass, n, kept[kept.len() - 1].0));
        assert(kept[kept.len() - 1].1 == merit(metric, scores(kept[kept.len() - 1].0)));
        if j < kept.len() - 1 {
            assert(rank(kept[kept.len() - 1].1) <= rank(kept[j].1));
        }
        let x = kept[j].1;
        let y = kept.last().1;
        law_negation(scores(kept[j].0), score);
        law_negation(scores(kept[kept.len() - 1].0), score);
        law_negation(x, y);
        law_negation(score, x);
        law_orders_agree(y, x);
        assert(at_most(y, x));
        assert(!below(y, merit(metric, score)));
    }
    // If the score were better than that of one of the first, all of these would come
    // before that one, and there are too many of them.
    assert forall|i: int| 0 <= i < k implies !metric.better(
        score,
        (#[trigger] first[i]).score,
    ) by {
        if metric.better(score, first[i].score) {
            let head = sorted.take(i);
            assert(first[i] == sorted[i]);
            assert forall|h: Hit| #[trigger] mine.contains(h) implies head.contains(h) by {
                let j = choose|j: int| 0 <= j < mine.len() && mine[j] == h;
                assert(!metric.better(score, mine[j].score));
                assert(sorted.contains(h));
                let a = choose|a: int| 0 <= a < sorted.len() && sorted[a] == h;
                law_orders_agree(h.score, first[i].score);
                law_orders_agree(first[i].score, h.score);
                assert(ahead(metric, h, sorted[i]));
                if a >= i {
                    assert(!ahead(metric, sorted[a], sorted[i]));
                }
                assert(head[a] == h);
            }
            lemma_part_len(mine, head);
        }
    }
}

/// Different things that are all in a list are no more than the list has.
proof fn lemma_part_len(a: Seq<Hit>, b: Seq<Hit>)
    requires
        a.no_duplicates(),
        forall|h: Hit| #[trigger] a.contains(h) ==> b.contains(h),
    ensures
        a.len() <= b.len(),
{
    a.unique_seq_to_set();
    b.lemma_cardinality_of_set();
    vstd::seq_lib::seq_to_set_is_finite(a);
    vstd::seq_lib::seq_to_set_is_finite(b);
    assert(a.to_set().subset_of(b.to_set())) by {
        assert forall|h: Hit| #[trigger] a.to_set().contains(h) implies b.to_set().contains(h) by {
            assert(a.contains(h));
        }
    }
    vstd::set_lib::lemma_len_subset(a.to_set(), b.to_set());
}

} // verus!
