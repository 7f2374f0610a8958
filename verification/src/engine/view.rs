//! The segments of a collection.
//!
//! Writes go to the mutable segment. A point that is written again, or deleted, while
//! it stands in an immutable segment is marked as deleted there, so that no more than
//! one row of an identifier is ever alive.

use vstd::prelude::*;

use crate::id::{ExternalId, IdView};
use crate::segment::immutable::ImmutableSegment;
use crate::segment::mutable::MutableSegment;
use crate::segment::{Entry, Point};

verus! {

/// The segments of a collection: the one that takes writes, and those that a flush left
/// behind, the oldest first.
pub struct CollView {
    /// The mutable segment.
    pub mutable: MutableSegment,
    /// The immutable segments.
    pub immutables: Vec<ImmutableSegment>,
}

/// Whether segments are valid, with vectors of one dimension.
pub open spec fn all_valid(segs: Seq<ImmutableSegment>, dim: nat) -> bool {
    forall|i: int|
        0 <= i < segs.len() ==> (#[trigger] segs[i]).valid() && segs[i].width() == dim
}

/// The points of some segments: where several have a point, that of the newest.
pub open spec fn layered(segs: Seq<ImmutableSegment>) -> Map<IdView, Entry>
    decreases segs.len(),
{
    if segs.len() == 0 {
        Map::empty()
    } else {
        layered(segs.drop_last()).union_prefer_right(segs.last().live())
    }
}

/// Whether a point is alive in one of some segments.
pub open spec fn held(segs: Seq<ImmutableSegment>, id: IdView) -> bool {
    exists|i: int| 0 <= i < segs.len() && (#[trigger] segs[i]).live().contains_key(id)
}

/// Whether segment `i` is the oldest in which a point is alive.
pub open spec fn oldest_in(segs: Seq<ImmutableSegment>, id: IdView, i: int) -> bool {
    &&& 0 <= i < segs.len()
    &&& segs[i].live().contains_key(id)
    &&& forall|j: int| 0 <= j < i ==> !(#[trigger] segs[j]).live().contains_key(id)
}

/// Whether no point is alive in two segments.
pub open spec fn disjoint(segs: Seq<ImmutableSegment>) -> bool {
    forall|i: int, j: int, id: IdView|
        #![trigger segs[i].live().contains_key(id), segs[j].live().contains_key(id)]
        0 <= i < j < segs.len() && segs[i].live().contains_key(id)
            ==> !segs[j].live().contains_key(id)
}

/// Whether no identifier that has a row in the mutable segment is alive in others.
pub open spec fn shadowed(index: Map<IdView, u32>, segs: Seq<ImmutableSegment>) -> bool {
    forall|i: int, id: IdView|
        #![trigger segs[i].live().contains_key(id)]
        0 <= i < segs.len() && index.contains_key(id) ==> !segs[i].live().contains_key(id)
}

/// The points that are layered are those that some segment holds.
pub proof fn lemma_layered(segs: Seq<ImmutableSegment>, id: IdView)
    ensures
        layered(segs).contains_key(id) <==> held(segs, id),
        forall|i: int|
            0 <= i < segs.len() && (#[trigger] segs[i]).live().contains_key(id) && (forall|j: int|
                i < j < segs.len() ==> !(#[trigger] segs[j]).live().contains_key(id))
                ==> layered(segs).contains_key(id) && layered(segs)[id] == segs[i].live()[id],
    decreases segs.len(),
{
    if segs.len() > 0 {
        let rest = segs.drop_last();
        let last = segs.len() - 1;
        lemma_layered(rest, id);
        if held(rest, id) {
            let i = choose|i: int| 0 <= i < rest.len() && (#[trigger] rest[i]).live().contains_key(id);
            assert(segs[i].live().contains_key(id));
        }
        if held(segs, id) && !segs[last].live().contains_key(id) {
            let i = choose|i: int| 0 <= i < segs.len() && (#[trigger] segs[i]).live().contains_key(id);
            assert(rest[i].live().contains_key(id));
        }
        if segs[last].live().contains_key(id) {
            assert(held(segs, id));
        }
        assert forall|i: int|
            0 <= i < segs.len() && (#[trigger] segs[i]).live().contains_key(id) && (forall|j: int|
                i < j < segs.len() ==> !(#[trigger] segs[j]).live().contains_key(
                    id,
                )) implies layered(segs).contains_key(id) && layered(segs)[id]
            == segs[i].live()[id] by {
            if i < last {
                assert(!segs[last].live().contains_key(id));
                assert(rest[i].live().contains_key(id));
                assert forall|j: int| i < j < rest.len() implies !(
                #[trigger] rest[j]).live().contains_key(id) by {
                    assert(!segs[j].live().contains_key(id));
                }
            }
        }
    }
}

impl CollView {
    /// The segments are valid, with vectors of one dimension.
    pub open spec fn valid(&self) -> bool {
        &&& self.mutable.valid()
        &&& all_valid(self.immutables@, self.width())
    }

    /// The dimension of the vectors.
    pub open spec fn width(&self) -> nat {
        self.mutable.width()
    }

    /// No more than one row of an identifier is alive, and none in an immutable segment
    /// once the mutable segment has one.
    pub open spec fn apart(&self) -> bool {
        &&& disjoint(self.immutables@)
        &&& shadowed(self.mutable.index(), self.immutables@)
    }

    /// The points: where several segments have a point, that of the newest.
    pub open spec fn contents(&self) -> Map<IdView, Entry> {
        layered(self.immutables@).union_prefer_right(self.mutable.live())
    }

    /// No points.
    pub fn new(dim: usize) -> (r: Self)
        ensures
            r.valid(),
            r.width() == dim,
            r.apart(),
            r.immutables@.len() == 0,
            r.mutable.rows().len() == 0,
            r.contents() == Map::<IdView, Entry>::empty(),
    {
        let r = CollView { mutable: MutableSegment::new(dim), immutables: Vec::new() };
        assert(r.contents() =~= Map::<IdView, Entry>::empty());
        r
    }

    /// The point of an identifier.
    pub fn lookup_point(&self, id: &ExternalId) -> (r: Option<Point>)
        requires
            self.valid(),
        ensures
            match r {
                Some(p) => self.contents().contains_key(id@) && p.id@ == id@ && p.entry()
                    == self.contents()[id@] && p.vector@.len() == self.width(),
                None => !self.contents().contains_key(id@),
            },
    {
        proof {
            self.mutable.lemma_valid();
        }
        if let Some(idx) = self.mutable.alive_index(id) {
            return Some(self.mutable.point(idx));
        }
        proof {
            lemma_layered(self.immutables@, id@);
        }
        let mut i: usize = self.immutables.len();
        while i > 0
            invariant
                i <= self.immutables@.len(),
                self.valid(),
                !self.mutable.live().contains_key(id@),
                layered(self.immutables@).contains_key(id@) <==> held(self.immutables@, id@),
                forall|i: int|
                    0 <= i < self.immutables@.len()
                        && (#[trigger] self.immutables@[i]).live().contains_key(id@) && (forall|
                        j: int,
                    |
                        i < j < self.immutables@.len() ==> !(
                        #[trigger] self.immutables@[j]).live().contains_key(id@)) ==> layered(
                        self.immutables@,
                    ).contains_key(id@) && layered(self.immutables@)[id@]
                        == self.immutables@[i].live()[id@],
                forall|j: int|
                    i <= j < self.immutables@.len() ==> !(
                    #[trigger] self.immutables@[j]).live().contains_key(id@),
            decreases i,
        {
            i = i - 1;
            let seg = &self.immutables[i];
            proof {
                seg.lemma_valid();
            }
            if let Some(idx) = seg.alive_index(id) {
                return Some(seg.point(idx));
            }
        }
        None
    }
}

} // verus!
