//! Reads of the segments of a collection.

use vstd::prelude::*;

use crate::engine::view::{disjoint, layered, lemma_layered, CollView};
use crate::filter::{filter_pass, passes, Condition};
use crate::id::{ExternalId, IdView};
use crate::query::ScrollPage;
use crate::segment::immutable::ImmutableSegment;
use crate::segment::{lemma_live_len, Point, Row};

verus! {

/// How many points are alive in some segments.
pub open spec fn alive_in(segs: Seq<ImmutableSegment>) -> nat
    decreases segs.len(),
{
    if segs.len() == 0 {
        0
    } else {
        alive_in(segs.drop_last()) + segs.last().live().len()
    }
}

/// How many rows some segments have.
pub open spec fn rows_in(segs: Seq<ImmutableSegment>) -> nat
    decreases segs.len(),
{
    if segs.len() == 0 {
        0
    } else {
        rows_in(segs.drop_last()) + segs.last().rows().len()
    }
}

/// Those of the first `n` rows that are not dead and meet a condition.
pub open spec fn listing(rows: Seq<Row>, dead: Set<u32>, filter: Option<Condition>, n: nat) -> Seq<
    Row,
>
    decreases n,
{
    if n == 0 {
        Seq::empty()
    } else {
        let before = listing(rows, dead, filter, (n - 1) as nat);
        let row = rows[n - 1];
        if !dead.contains((n - 1) as u32) && passes(filter, row.id, row.payload) {
            before.push(row)
        } else {
            before
        }
    }
}

/// The rows of some segments that are not dead and meet a condition: those of the newest
/// segment first.
pub open spec fn listings(segs: Seq<ImmutableSegment>, filter: Option<Condition>) -> Seq<Row>
    decreases segs.len(),
{
    if segs.len() == 0 {
        Seq::empty()
    } else {
        let seg = segs.last();
        listing(seg.rows(), seg.dead(), filter, seg.rows().len()) + listings(
            segs.drop_last(),
            filter,
        )
    }
}

/// Whether points are what some rows hold.
pub open spec fn shows(points: Seq<Point>, rows: Seq<Row>) -> bool {
    &&& points.len() == rows.len()
    &&& forall|i: int|
        0 <= i < points.len() ==> (#[trigger] points[i]).id@ == rows[i].id && points[i].entry()
            == rows[i].entry()
}

/// The part of a listing that a page shows.
pub open spec fn page(all: Seq<Row>, offset: nat, limit: nat) -> Seq<Row> {
    if offset >= all.len() {
        Seq::empty()
    } else if offset + limit >= all.len() {
        all.skip(offset as int)
    } else {
        all.subrange(offset as int, (offset + limit) as int)
    }
}

/// The number of points to put on a page: at least one.
pub open spec fn page_size(limit: usize) -> nat {
    if limit == 0 {
        1
    } else {
        limit as nat
    }
}

/// Where the next page starts, if there is more than a page shows.
pub open spec fn next_page(total: nat, offset: u64, limit: usize) -> Option<u64> {
    if offset + page_size(limit) < total {
        Some((offset + page_size(limit)) as u64)
    } else {
        None
    }
}

proof fn lemma_listing_len(rows: Seq<Row>, dead: Set<u32>, filter: Option<Condition>, n: nat)
    ensures
        listing(rows, dead, filter, n).len() <= n,
    decreases n,
{
    if n > 0 {
        lemma_listing_len(rows, dead, filter, (n - 1) as nat);
    }
}

proof fn lemma_rows_in(segs: Seq<ImmutableSegment>, n: int)
    requires
        0 <= n <= segs.len(),
    ensures
        rows_in(segs.take(n)) <= rows_in(segs),
    decreases segs.len() - n,
{
    if n < segs.len() {
        lemma_rows_in(segs, n + 1);
        assert(segs.take(n + 1).drop_last() =~= segs.take(n));
    } else {
        assert(segs.take(n) =~= segs);
    }
}

/// Where no point is alive in two segments, what is layered has as many points as are
/// alive.
proof fn lemma_layered_len(segs: Seq<ImmutableSegment>)
    requires
        forall|i: int| 0 <= i < segs.len() ==> (#[trigger] segs[i]).valid(),
        disjoint(segs),
    ensures
        layered(segs).dom().finite(),
        layered(segs).len() == alive_in(segs),
    decreases segs.len(),
{
    if segs.len() > 0 {
        let n = segs.len() - 1;
        let last = segs[n];
        let rest = segs.drop_last();
        last.lemma_valid();
        lemma_live_len(last.rows(), last.index(), last.dead());
        assert forall|i: int| 0 <= i < rest.len() implies (#[trigger] rest[i]).valid() by {
            assert(segs[i].valid());
        }
        assert(disjoint(rest)) by {
            assert forall|i: int, j: int, id: IdView|
                #![trigger rest[i].live().contains_key(id), rest[j].live().contains_key(id)]
                0 <= i < j < rest.len() && rest[i].live().contains_key(
                    id,
                ) implies !rest[j].live().contains_key(id) by {
                assert(rest[i] == segs[i] && rest[j] == segs[j]);
            }
        }
        lemma_layered_len(rest);
        let a = layered(rest).dom();
        let b = last.live().dom();
        assert forall|id: IdView| #[trigger] a.contains(id) implies !b.contains(id) by {
            lemma_layered(rest, id);
            let i = choose|i: int| 0 <= i < rest.len() && (#[trigger] rest[i]).live().contains_key(id);
            assert(segs[i].live().contains_key(id));
            if b.contains(id) {
                assert(segs[n].live().contains_key(id));
            }
        }
        assert(a.disjoint(b));
        vstd::set_lib::lemma_set_disjoint_lens(a, b);
        assert(layered(segs).dom() =~= a.union(b));
    } else {
        assert(layered(segs).dom() =~= Set::<IdView>::empty());
    }
}

impl CollView {
    /// How many rows there are.
    pub open spec fn rows_total(&self) -> nat {
        self.mutable.rows().len() + rows_in(self.immutables@)
    }

    /// The rows that are not dead and meet a condition: those of the mutable segment
    /// first, then those of the immutable ones, from the newest to the oldest.
    pub open spec fn listed(&self, filter: Option<Condition>) -> Seq<Row> {
        listing(
            self.mutable.rows(),
            self.mutable.dead(),
            filter,
            self.mutable.rows().len(),
        ) + listings(self.immutables@, filter)
    }

    /// The number of points that are alive.
    pub fn count(&self) -> (r: u64)
        requires
            self.valid(),
            self.rows_total() <= u64::MAX,
        ensures
            r == self.mutable.live().len() + alive_in(self.immutables@),
            self.apart() ==> r == self.contents().len() && self.contents().dom().finite(),
    {
        let ghost segs = self.immutables@;
        proof {
            self.mutable.lemma_valid();
            lemma_live_len(self.mutable.rows(), self.mutable.index(), self.mutable.dead());
        }
        let mut n: u64 = self.mutable.alive();
        let mut i: usize = 0;
        while i < self.immutables.len()
            invariant
                i <= self.immutables@.len(),
                segs == self.immutables@,
                self.valid(),
                self.rows_total() <= u64::MAX,
                self.mutable.live().len() <= self.mutable.rows().len(),
                n == self.mutable.live().len() + alive_in(segs.take(i as int)),
                n <= self.mutable.rows().len() + rows_in(segs.take(i as int)),
            decreases self.immutables@.len() - i,
        {
            proof {
                assert(segs.take(i + 1).drop_last() =~= segs.take(i as int));
                lemma_rows_in(segs, i + 1);
                let seg = segs[i as int];
                seg.lemma_valid();
                lemma_live_len(seg.rows(), seg.index(), seg.dead());
            }
            n = n + self.immutables[i].alive();
            i = i + 1;
        }
        proof {
            assert(segs.take(segs.len() as int) =~= segs);
            if self.apart() {
                lemma_layered_len(segs);
                let a = layered(segs).dom();
                let b = self.mutable.live().dom();
                assert forall|id: IdView| #[trigger] a.contains(id) implies !b.contains(id) by {
                    lemma_layered(segs, id);
                    let i = choose|i: int|
                        0 <= i < segs.len() && (#[trigger] segs[i]).live().contains_key(id);
                    assert(segs[i].live().contains_key(id));
                }
                assert(a.disjoint(b));
                vstd::set_lib::lemma_set_disjoint_lens(a, b);
                assert(self.contents().dom() =~= a.union(b));
            }
        }
        n
    }

    /// The points of some identifiers, in their order; none where there is no point.
    pub fn get(&self, ids: &[ExternalId]) -> (r: Vec<Option<Point>>)
        requires
            self.valid(),
        ensures
            r@.len() == ids@.len(),
            forall|i: int|
                0 <= i < ids@.len() ==> match #[trigger] r@[i] {
                    Some(p) => self.contents().contains_key(ids@[i]@) && p.id@ == ids@[i]@
                        && p.entry() == self.contents()[ids@[i]@],
                    None => !self.contents().contains_key(ids@[i]@),
                },
    {
        let mut r: Vec<Option<Point>> = Vec::new();
        let mut i: usize = 0;
        while i < ids.len()
            invariant
                i <= ids@.len(),
                self.valid(),
                r@.len() == i,
                forall|i: int|
                    0 <= i < r@.len() ==> match #[trigger] r@[i] {
                        Some(p) => self.contents().contains_key(ids@[i]@) && p.id@ == ids@[i]@
                            && p.entry() == self.contents()[ids@[i]@],
                        None => !self.contents().contains_key(ids@[i]@),
                    },
            decreases ids.len() - i,
        {
            r.push(self.lookup_point(&ids[i]));
            i = i + 1;
        }
        r
    }

    /// A page of the points that meet a condition, from the one at `offset` on.
    pub fn scroll(&self, offset: u64, limit: usize, filter: &Option<Condition>) -> (r: ScrollPage)
        requires
            self.valid(),
            self.rows_total() <= u64::MAX,
        ensures
            shows(r.points@, page(self.listed(*filter), offset as nat, page_size(limit))),
            r.next_offset == next_page(self.listed(*filter).len(), offset, limit),
    {
        let limit: usize = if limit == 0 {
            1
        } else {
            limit
        };
        let ghost all = self.listed(*filter);
        let ghost segs = self.immutables@;
        let ghost first = listing(
            self.mutable.rows(),
            self.mutable.dead(),
            *filter,
            self.mutable.rows().len(),
        );
        let mut s = Scroll { points: Vec::new(), cursor: 0, next: None };
        proof {
            self.mutable.lemma_valid();
        }
        let total: u32 = self.mutable.total() as u32;
        let mut idx: u32 = 0;
        while idx < total && s.next.is_none()
            invariant
                idx <= total,
                total == self.mutable.rows().len(),
                self.valid(),
                self.rows_total() <= u64::MAX,
                limit > 0,
                first == listing(self.mutable.rows(), self.mutable.dead(), *filter, total as nat),
                s.next is None ==> s.along(
                    listing(self.mutable.rows(), self.mutable.dead(), *filter, idx as nat),
                    offset,
                    limit,
                ),
                s.next is Some ==> s.ended(first, offset, limit),
            decreases total - idx,
        {
            let ghost before = listing(
                self.mutable.rows(),
                self.mutable.dead(),
                *filter,
                idx as nat,
            );
            proof {
                lemma_listing_len(
                    self.mutable.rows(),
                    self.mutable.dead(),
                    *filter,
                    idx as nat,
                );
            }
            if !self.mutable.is_deleted(idx) {
                let p = self.mutable.point(idx);
                if filter_pass(filter, &p.id, &p.payload) {
                    s.visit(p, offset, limit, Ghost(before), Ghost(self.mutable.rows()[idx as int]));
                    if s.next.is_some() {
                        proof {
                            lemma_listing_grows(
                                self.mutable.rows(),
                                self.mutable.dead(),
                                *filter,
                                (idx + 1) as nat,
                                total as nat,
                            );
                            s.lemma_ended(
                                before.push(self.mutable.rows()[idx as int]),
                                first,
                                offset,
                                limit,
                            );
                        }
                    }
                }
            }
            idx = idx + 1;
        }
        let mut si: usize = self.immutables.len();
        proof {
            assert(first + Seq::<Row>::empty() =~= first);
            assert(segs.skip(segs.len() as int) =~= Seq::<ImmutableSegment>::empty());
            if s.next is Some {
                s.lemma_ended(first, all, offset, limit);
            }
            lemma_listings_rest(segs, segs.len() as int, *filter);
            lemma_listing_len(
                self.mutable.rows(),
                self.mutable.dead(),
                *filter,
                total as nat,
            );
        }
        while si > 0 && s.next.is_none()
            invariant
                si <= segs.len(),
                segs == self.immutables@,
                self.valid(),
                self.rows_total() <= u64::MAX,
                limit > 0,
                first.len() <= self.mutable.rows().len(),
                all == first + listings(segs, *filter),
                s.next is None ==> s.along(
                    first + listings(segs.skip(si as int), *filter),
                    offset,
                    limit,
                ),
                s.next is Some ==> s.ended(all, offset, limit),
            decreases si,
        {
            si = si - 1;
            let seg = &self.immutables[si];
            let ghost done = first + listings(segs.skip(si + 1), *filter);
            let ghost here = listing(seg.rows(), seg.dead(), *filter, seg.rows().len());
            proof {
                seg.lemma_valid();
                lemma_listings_rest(segs, si as int, *filter);
                lemma_listings_rest(segs, si + 1, *filter);
                lemma_listings_len(segs.skip(si + 1), *filter);
                lemma_rows_split(segs, si as int);
                assert(done + Seq::<Row>::empty() =~= done);
            }
            let total: u32 = seg.total() as u32;
            let mut idx: u32 = 0;
            while idx < total && s.next.is_none()
                invariant
                    idx <= total,
                    total == seg.rows().len(),
                    seg.valid(),
                    limit > 0,
                    done.len() + seg.rows().len() <= u64::MAX,
                    here == listing(seg.rows(), seg.dead(), *filter, total as nat),
                    s.next is None ==> s.along(
                        done + listing(seg.rows(), seg.dead(), *filter, idx as nat),
                        offset,
                        limit,
                    ),
                    s.next is Some ==> s.ended(done + here, offset, limit),
                decreases total - idx,
            {
                let ghost part = listing(seg.rows(), seg.dead(), *filter, idx as nat);
                proof {
                    lemma_listing_len(seg.rows(), seg.dead(), *filter, idx as nat);
                }
                if seg.is_alive(idx) {
                    let p = seg.point(idx);
                    if filter_pass(filter, &p.id, &p.payload) {
                        s.visit(
                            p,
                            offset,
                            limit,
                            Ghost(done + part),
                            Ghost(seg.rows()[idx as int]),
                        );
                        proof {
                            let row = seg.rows()[idx as int];
                            assert((done + part).push(row) =~= done + part.push(row));
                            if s.next is Some {
                                lemma_listing_grows(
                                    seg.rows(),
                                    seg.dead(),
                                    *filter,
                                    (idx + 1) as nat,
                                    total as nat,
                                );
                                let upto = part.push(row);
                                assert forall|i: int| 0 <= i < upto.len() implies here[i]
                                    == upto[i] by {
                                    assert(here.take(upto.len() as int)[i] == here[i]);
                                }
                                s.lemma_ended(
                                    done + part.push(row),
                                    done + here,
                                    offset,
                                    limit,
                                );
                            }
                        }
                    }
                }
                idx = idx + 1;
            }
            proof {
                assert(done + here =~= first + (listings(segs.skip(si + 1), *filter) + here));
                assert(all =~= (done + here) + listings(segs.take(si as int), *filter));
                if s.next is Some {
                    s.lemma_ended(done + here, all, offset, limit);
                }
            }
        }
        proof {
            assert(segs.skip(0) =~= segs);
        }
        ScrollPage { points: s.points, next_offset: s.next }
    }
}

/// How far a page has come.
struct Scroll {
    points: Vec<Point>,
    cursor: u64,
    next: Option<u64>,
}

impl Scroll {
    /// Some rows were looked at, and the page is not over.
    spec fn along(&self, seen: Seq<Row>, offset: u64, limit: usize) -> bool {
        &&& self.cursor == seen.len()
        &&& seen.len() <= offset + limit
        &&& shows(self.points@, page(seen, offset as nat, limit as nat))
    }

    /// The page is over, and there are more rows.
    spec fn ended(&self, all: Seq<Row>, offset: u64, limit: usize) -> bool {
        &&& offset + limit < all.len()
        &&& self.next == Some((offset + limit) as u64)
        &&& offset + limit <= u64::MAX
        &&& shows(self.points@, page(all, offset as nat, limit as nat))
    }

    proof fn lemma_ended(&self, part: Seq<Row>, all: Seq<Row>, offset: u64, limit: usize)
        requires
            self.ended(part, offset, limit),
            part.len() <= all.len(),
            all.take(part.len() as int) =~= part,
        ensures
            self.ended(all, offset, limit),
    {
        assert(page(all, offset as nat, limit as nat) =~= page(part, offset as nat, limit as nat))
            by {
            assert forall|i: int| 0 <= i < part.len() implies part[i] == all[i] by {
                assert(all.take(part.len() as int)[i] == all[i]);
            }
        }
    }

    /// Looks at one more point.
    fn visit(
        &mut self,
        p: Point,
        offset: u64,
        limit: usize,
        Ghost(seen): Ghost<Seq<Row>>,
        Ghost(row): Ghost<Row>,
    )
        requires
            old(self).along(seen, offset, limit),
            old(self).next is None,
            limit > 0,
            seen.len() < u64::MAX,
            p.id@ == row.id,
            p.entry() == row.entry(),
        ensures
            final(self).next is None ==> final(self).along(seen.push(row), offset, limit),
            final(self).next is Some ==> final(self).ended(seen.push(row), offset, limit),
    {
        let ghost n = seen.len();
        let ghost shown = page(seen, offset as nat, limit as nat);
        if self.points.len() == limit {
            self.next = Some(self.cursor);
            proof {
                assert(n == offset + limit);
                assert(page(seen.push(row), offset as nat, limit as nat) =~= shown);
            }
        } else {
            if self.cursor >= offset {
                self.points.push(p);
                proof {
                    assert(page(seen.push(row), offset as nat, limit as nat) =~= shown.push(row));
                }
            } else {
                proof {
                    assert(page(seen.push(row), offset as nat, limit as nat) =~= shown);
                }
            }
            self.cursor = self.cursor + 1;
        }
    }
}

/// What is listed of fewer rows comes first in what is listed of more.
proof fn lemma_listing_grows(
    rows: Seq<Row>,
    dead: Set<u32>,
    filter: Option<Condition>,
    a: nat,
    b: nat,
)
    requires
        a <= b,
    ensures
        listing(rows, dead, filter, a).len() <= listing(rows, dead, filter, b).len(),
        listing(rows, dead, filter, b).take(listing(rows, dead, filter, a).len() as int) == listing(
            rows,
            dead,
            filter,
            a,
        ),
    decreases b,
{
    let la = listing(rows, dead, filter, a);
    if a < b {
        lemma_listing_grows(rows, dead, filter, a, (b - 1) as nat);
        assert(listing(rows, dead, filter, b).take(la.len() as int) =~= listing(
            rows,
            dead,
            filter,
            (b - 1) as nat,
        ).take(la.len() as int));
    } else {
        assert(la.take(la.len() as int) =~= la);
    }
}

/// The newest segments are listed first.
proof fn lemma_listings_rest(segs: Seq<ImmutableSegment>, n: int, filter: Option<Condition>)
    requires
        0 <= n <= segs.len(),
    ensures
        listings(segs, filter) == listings(segs.skip(n), filter) + listings(segs.take(n), filter),
        n < segs.len() ==> listings(segs.skip(n), filter) == listings(segs.skip(n + 1), filter)
            + listing(segs[n].rows(), segs[n].dead(), filter, segs[n].rows().len()),
    decreases segs.len() - n,
{
    if n == segs.len() {
        assert(segs.skip(n) =~= Seq::<ImmutableSegment>::empty());
        assert(segs.take(n) =~= segs);
        assert(listings(segs, filter) =~= listings(segs.skip(n), filter) + listings(
            segs.take(n),
            filter,
        ));
    } else {
        let here = listing(segs[n].rows(), segs[n].dead(), filter, segs[n].rows().len());
        lemma_listings_rest(segs, n + 1, filter);
        lemma_listings_first(segs.skip(n), filter);
        assert(segs.skip(n).skip(1) =~= segs.skip(n + 1));
        assert(segs.skip(n)[0] == segs[n]);
        assert(segs.take(n + 1).drop_last() =~= segs.take(n));
        assert(segs.take(n + 1).last() == segs[n]);
        assert(listings(segs.skip(n + 1), filter) + (here + listings(segs.take(n), filter)) =~= (
        listings(segs.skip(n + 1), filter) + here) + listings(segs.take(n), filter));
    }
}

/// The oldest segment is listed last.
proof fn lemma_listings_first(segs: Seq<ImmutableSegment>, filter: Option<Condition>)
    requires
        segs.len() > 0,
    ensures
        listings(segs, filter) == listings(segs.skip(1), filter) + listing(
            segs[0].rows(),
            segs[0].dead(),
            filter,
            segs[0].rows().len(),
        ),
    decreases segs.len(),
{
    let here = listing(segs[0].rows(), segs[0].dead(), filter, segs[0].rows().len());
    if segs.len() == 1 {
        assert(segs.drop_last() =~= Seq::<ImmutableSegment>::empty());
        assert(segs.skip(1) =~= Seq::<ImmutableSegment>::empty());
        assert(listings(segs, filter) =~= listings(segs.skip(1), filter) + here);
    } else {
        let rest = segs.drop_last();
        lemma_listings_first(rest, filter);
        assert(segs.skip(1).drop_last() =~= rest.skip(1));
        assert(segs.skip(1).last() == segs.last());
        assert(rest[0] == segs[0]);
        let last = listing(
            segs.last().rows(),
            segs.last().dead(),
            filter,
            segs.last().rows().len(),
        );
        assert(last + (listings(rest.skip(1), filter) + here) =~= (last + listings(
            rest.skip(1),
            filter,
        )) + here);
    }
}

proof fn lemma_listings_len(segs: Seq<ImmutableSegment>, filter: Option<Condition>)
    ensures
        listings(segs, filter).len() <= rows_in(segs),
    decreases segs.len(),
{
    if segs.len() > 0 {
        let seg = segs.last();
        lemma_listing_len(seg.rows(), seg.dead(), filter, seg.rows().len());
        lemma_listings_len(segs.drop_last(), filter);
    }
}

proof fn lemma_rows_split(segs: Seq<ImmutableSegment>, n: int)
    requires
        0 <= n < segs.len(),
    ensures
        rows_in(segs.skip(n + 1)) + segs[n].rows().len() <= rows_in(segs),
    decreases segs.len(),
{
    let rest = segs.drop_last();
    if n == segs.len() - 1 {
        assert(segs.skip(n + 1) =~= Seq::<ImmutableSegment>::empty());
    } else {
        lemma_rows_split(rest, n);
        assert(segs.skip(n + 1).drop_last() =~= rest.skip(n + 1));
        assert(segs.skip(n + 1).last() == segs.last());
    }
}

} // verus!
