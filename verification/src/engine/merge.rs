//! Making new segments out of old ones.

use vstd::prelude::*;

use crate::collection::{CollectionConfig, IndexKind};
use crate::engine::read::{alive_in, listing};
use crate::engine::view::{layered, CollView};
use crate::error::{Error, Invalid};
use crate::filter::Condition;
use crate::id::IdView;
use crate::index::hnsw::graph::EMPTY;
use crate::index::hnsw::mesh::meshed;
use crate::index::hnsw::{built_of, HnswIndex};
use crate::json::JsonView;
use crate::kernel::{Kernel, Metric};
use crate::segment::immutable::{
    below_count, lemma_below_count, settled_entry, settled_live, settled_rows, ImmutableSegment,
};
use crate::segment::mutable::MutableSegment;
use crate::segment::{dead_within, indexed, lemma_live_len, live_of, Entry, Row, Table};

verus! {

/// Rows with the norms of their vectors.
pub open spec fn renormed<N, S>(rows: Seq<Row>, kernel: Kernel<N, S>) -> Seq<Row> where
    N: Fn(&[u32]) -> u32,
    S: Fn(Metric, &[u32], u32, &[u32], u32) -> u32,
 {
    Seq::new(rows.len(), |i: int| Row { norm: kernel.norm_of(rows[i].vector), ..rows[i] })
}

/// The rows of a segment that are not dead.
pub open spec fn live_rows(rows: Seq<Row>, dead: Set<u32>) -> Seq<Row> {
    listing(rows, dead, None::<Condition>, rows.len())
}

/// The rows of some segments that are not dead: those of the oldest segment first.
pub open spec fn oldest_first(segs: Seq<ImmutableSegment>) -> Seq<Row>
    decreases segs.len(),
{
    if segs.len() == 0 {
        Seq::empty()
    } else {
        oldest_first(segs.drop_last()) + live_rows(segs.last().rows(), segs.last().dead())
    }
}

/// A table without rows.
pub open spec fn no_rows() -> Table {
    Table { rows: Seq::empty(), index: Map::empty(), dead: Set::empty() }
}

/// There are as many rows that are not dead as there are points alive.
pub proof fn lemma_live_rows(rows: Seq<Row>, index: Map<IdView, u32>, dead: Set<u32>)
    requires
        indexed(rows, index),
        dead_within(dead, rows.len()),
        rows.len() <= u32::MAX,
    ensures
        live_rows(rows, dead).len() == live_of(rows, index, dead).len(),
{
    lemma_live_len(rows, index, dead);
    lemma_below_count(dead, rows.len());
    lemma_listing_count(rows, dead, rows.len());
}

proof fn lemma_listing_count(rows: Seq<Row>, dead: Set<u32>, n: nat)
    ensures
        listing(rows, dead, None::<Condition>, n).len() + below_count(dead, n) == n,
    decreases n,
{
    if n > 0 {
        lemma_listing_count(rows, dead, (n - 1) as nat);
    }
}

/// The points among the first `n` rows of a segment that are alive.
spec fn live_upto(rows: Seq<Row>, index: Map<IdView, u32>, dead: Set<u32>, n: nat) -> Map<
    IdView,
    Entry,
> {
    Map::new(
        |id: IdView| index.contains_key(id) && !dead.contains(index[id]) && index[id] < n,
        |id: IdView| rows[index[id] as int].entry(),
    )
}

proof fn lemma_put_all(t: Table, a: Seq<Row>, b: Seq<Row>)
    ensures
        t.put_all(a + b) == t.put_all(a).put_all(b),
    decreases b.len(),
{
    if b.len() == 0 {
        assert(a + b =~= a);
    } else {
        assert((a + b).drop_last() =~= a + b.drop_last());
        assert((a + b).last() == b.last());
        lemma_put_all(t, a, b.drop_last());
    }
}

proof fn lemma_put_dead(t: Table, rows: Seq<Row>)
    requires
        t.dead == Set::<u32>::empty(),
    ensures
        t.put_all(rows).dead == Set::<u32>::empty(),
    decreases rows.len(),
{
    if rows.len() > 0 {
        lemma_put_dead(t, rows.drop_last());
        let before = t.put_all(rows.drop_last());
        assert(before.dead.remove(before.index[rows.last().id]) =~= Set::<u32>::empty());
    }
}

/// Writes the points of a segment that are alive, in the order of their rows.
fn absorb<N, S>(merged: &mut MutableSegment, seg: &ImmutableSegment, kernel: &Kernel<N, S>) where
    N: Fn(&[u32]) -> u32,
    S: Fn(Metric, &[u32], u32, &[u32], u32) -> u32,

    requires
        old(merged).valid(),
        seg.valid(),
        kernel.valid(),
        seg.width() == old(merged).width(),
        old(merged).rows().len() + seg.live().len() <= u32::MAX,
    ensures
        final(merged).valid(),
        final(merged).width() == old(merged).width(),
        final(merged).table() == old(merged).table().put_all(
            renormed(live_rows(seg.rows(), seg.dead()), *kernel),
        ),
        final(merged).live() == old(merged).live().union_prefer_right(seg.live()),
        final(merged).rows().len() <= old(merged).rows().len() + seg.live().len(),
{
    let ghost rows = seg.rows();
    let ghost index = seg.index();
    let ghost dead = seg.dead();
    let ghost before = *merged;
    proof {
        seg.lemma_valid();
        lemma_live_rows(rows, index, dead);
        assert(renormed(listing(rows, dead, None::<Condition>, 0), *kernel) =~= Seq::<Row>::empty());
        assert(merged.live() =~= before.live().union_prefer_right(
            live_upto(rows, index, dead, 0),
        ));
    }
    let total: u32 = seg.total() as u32;
    let mut idx: u32 = 0;
    while idx < total
        invariant
            idx <= total,
            total == rows.len(),
            seg.valid(),
            rows == seg.rows(),
            index == seg.index(),
            dead == seg.dead(),
            indexed(rows, index),
            kernel.valid(),
            before == *old(merged),
            merged.valid(),
            merged.width() == before.width(),
            seg.width() == before.width(),
            before.rows().len() + listing(rows, dead, None::<Condition>, total as nat).len()
                <= u32::MAX,
            merged.rows().len() <= before.rows().len() + listing(
                rows,
                dead,
                None::<Condition>,
                idx as nat,
            ).len(),
            merged.table() == before.table().put_all(
                renormed(listing(rows, dead, None::<Condition>, idx as nat), *kernel),
            ),
            merged.live() == before.live().union_prefer_right(
                live_upto(rows, index, dead, idx as nat),
            ),
        decreases total - idx,
    {
        let ghost part = listing(rows, dead, None::<Condition>, idx as nat);
        let ghost more = listing(rows, dead, None::<Condition>, (idx + 1) as nat);
        let ghost view1 = *merged;
        proof {
            lemma_listing_longer(rows, dead, (idx + 1) as nat, total as nat);
        }
        if seg.is_alive(idx) {
            let p = seg.point(idx);
            merged.upsert(&p, kernel);
            proof {
                let row = rows[idx as int];
                assert(more =~= part.push(row));
                assert(renormed(more, *kernel).drop_last() =~= renormed(part, *kernel));
                assert(p.row(kernel.norm_of(p.vector@)) == renormed(more, *kernel).last());
                view1.lemma_valid();
                assert(merged.rows() == merged.table().rows);
                assert(index[row.id] == idx);
                assert(merged.live() =~= before.live().union_prefer_right(
                    live_upto(rows, index, dead, (idx + 1) as nat),
                ));
            }
        } else {
            proof {
                assert(more =~= part);
                assert(live_upto(rows, index, dead, (idx + 1) as nat) =~= live_upto(
                    rows,
                    index,
                    dead,
                    idx as nat,
                ));
            }
        }
        idx = idx + 1;
    }
    proof {
        assert(live_upto(rows, index, dead, total as nat) =~= seg.live());
    }
}

proof fn lemma_listing_longer(rows: Seq<Row>, dead: Set<u32>, a: nat, b: nat)
    requires
        a <= b,
    ensures
        listing(rows, dead, None::<Condition>, a).len() <= listing(
            rows,
            dead,
            None::<Condition>,
            b,
        ).len(),
    decreases b,
{
    if a < b {
        lemma_listing_longer(rows, dead, a, (b - 1) as nat);
    }
}

proof fn lemma_alive_part(segs: Seq<ImmutableSegment>, n: int)
    requires
        0 <= n <= segs.len(),
    ensures
        alive_in(segs.take(n)) <= alive_in(segs),
    decreases segs.len() - n,
{
    if n < segs.len() {
        lemma_alive_part(segs, n + 1);
        assert(segs.take(n + 1).drop_last() =~= segs.take(n));
    } else {
        assert(segs.take(n) =~= segs);
    }
}

/// Whether a segment is made of the rows of a mutable segment, with the index that a
/// configuration asks for.
pub open spec fn made<N, S>(
    seg: ImmutableSegment,
    config: CollectionConfig,
    seg_id: u64,
    m: MutableSegment,
    kernel: Kernel<N, S>,
) -> bool where N: Fn(&[u32]) -> u32, S: Fn(Metric, &[u32], u32, &[u32], u32) -> u32 {
    &&& seg.valid()
    &&& seg.number() == seg_id
    &&& seg.rows() == settled_rows(m.rows())
    &&& seg.width() == m.width()
    &&& seg.index() == m.index()
    &&& seg.dead() == m.dead()
    &&& seg.over() == Map::<IdView, Option<JsonView>>::empty()
    &&& seg.live() == settled_live(m.live())
    &&& match config.index {
        IndexKind::Flat => seg.graph() is None,
        IndexKind::Hnsw { params } => seg.graph() is Some && seg.graph()->0.params == params
            && seg.graph()->0.graph.built() && seg.graph()->0.graph@ == built_of(
            m.rows().len(),
            seg.store(),
            config.metric,
            kernel,
            params,
        ) && (m.rows().len() <= params.m0 + 1 && m.rows().len() <= params.ef_construct ==> meshed(
            seg.graph()->0.graph@,
            m.rows().len(),
        )),
    }
}

/// Whether the index of a segment of `n` rows fits into memory.
pub open spec fn indexable(config: CollectionConfig, n: nat) -> bool {
    match config.index {
        IndexKind::Flat => true,
        IndexKind::Hnsw { params } => n < EMPTY ==> n * params.m0 <= usize::MAX,
    }
}

/// Makes a segment of the rows of a mutable segment, with the index that the
/// configuration asks for. It fails where there are too many rows to index.
pub fn build_segment<N, S>(
    config: &CollectionConfig,
    seg_id: u64,
    m: &MutableSegment,
    kernel: &Kernel<N, S>,
) -> (r: Result<ImmutableSegment, Error>) where
    N: Fn(&[u32]) -> u32,
    S: Fn(Metric, &[u32], u32, &[u32], u32) -> u32,

    requires
        m.valid(),
        kernel.valid(),
        indexable(*config, m.rows().len()),
    ensures
        match r {
            Ok(seg) => made(seg, *config, seg_id, *m, *kernel) && (config.index is Hnsw
                ==> m.rows().len() < EMPTY),
            Err(e) => config.index is Hnsw && m.rows().len() >= EMPTY && e == Error::Invalid(
                Invalid::SegmentTooLarge,
            ),
        },
{
    let mut seg = ImmutableSegment::freeze(seg_id, m);
    proof {
        m.lemma_valid();
        seg.lemma_valid();
    }
    if let IndexKind::Hnsw { params } = config.index {
        match HnswIndex::build(seg.data(), config.metric, kernel, params) {
            Ok(index) => {
                let ghost before = seg;
                seg.install_index(index);
                proof {
                    assert(seg.rows() =~= before.rows());
                    assert(seg.live() =~= before.live());
                }
            },
            Err(e) => {
                return Err(e);
            },
        }
    }
    Ok(seg)
}

impl CollView {
    /// How many points are alive.
    pub open spec fn alive_total(&self) -> nat {
        self.mutable.live().len() + alive_in(self.immutables@)
    }

    /// All rows that are not dead: those of the oldest segment first, those of the
    /// mutable segment last.
    pub open spec fn chronicle(&self) -> Seq<Row> {
        oldest_first(self.immutables@) + live_rows(self.mutable.rows(), self.mutable.dead())
    }

    /// All points, written one after the other: those of the oldest segment first, those
    /// of the mutable segment last.
    pub fn merged<N, S>(&self, kernel: &Kernel<N, S>) -> (m: MutableSegment) where
        N: Fn(&[u32]) -> u32,
        S: Fn(Metric, &[u32], u32, &[u32], u32) -> u32,

        requires
            self.valid(),
            kernel.valid(),
            self.alive_total() <= u32::MAX,
        ensures
            m.valid(),
            m.width() == self.width(),
            m.table() == no_rows().put_all(renormed(self.chronicle(), *kernel)),
            m.dead() == Set::<u32>::empty(),
            m.live() == self.contents(),
            m.rows().len() <= self.alive_total(),
    {
        let ghost segs = self.immutables@;
        let mut m = MutableSegment::new(self.mutable.dim());
        proof {
            self.mutable.lemma_valid();
            assert(segs.take(0) =~= Seq::<ImmutableSegment>::empty());
            assert(renormed(oldest_first(segs.take(0)), *kernel) =~= Seq::<Row>::empty());
            assert(m.table() =~= no_rows());
            assert(m.live() =~= layered(segs.take(0)));
        }
        let mut i: usize = 0;
        while i < self.immutables.len()
            invariant
                i <= segs.len(),
                segs == self.immutables@,
                self.valid(),
                kernel.valid(),
                self.alive_total() <= u32::MAX,
                m.valid(),
                m.width() == self.width(),
                m.rows().len() <= alive_in(segs.take(i as int)),
                m.table() == no_rows().put_all(
                    renormed(oldest_first(segs.take(i as int)), *kernel),
                ),
                m.live() == layered(segs.take(i as int)),
            decreases self.immutables@.len() - i,
        {
            proof {
                let a = segs.take(i as int);
                let b = segs.take(i + 1);
                assert(b.drop_last() =~= a);
                assert(b.last() == segs[i as int]);
                lemma_alive_part(segs, i + 1);
                let seg = segs[i as int];
                lemma_put_all(
                    no_rows(),
                    renormed(oldest_first(a), *kernel),
                    renormed(live_rows(seg.rows(), seg.dead()), *kernel),
                );
                assert(renormed(oldest_first(b), *kernel) =~= renormed(oldest_first(a), *kernel)
                    + renormed(live_rows(seg.rows(), seg.dead()), *kernel));
            }
            absorb(&mut m, &self.immutables[i], kernel);
            i = i + 1;
        }
        proof {
            assert(segs.take(segs.len() as int) =~= segs);
            lemma_put_all(
                no_rows(),
                renormed(oldest_first(segs), *kernel),
                renormed(live_rows(self.mutable.rows(), self.mutable.dead()), *kernel),
            );
            assert(renormed(self.chronicle(), *kernel) =~= renormed(oldest_first(segs), *kernel)
                + renormed(live_rows(self.mutable.rows(), self.mutable.dead()), *kernel));
        }
        absorb_mutable(&mut m, &self.mutable, kernel);
        proof {
            lemma_put_dead(no_rows(), renormed(self.chronicle(), *kernel));
            assert(m.dead() == m.table().dead);
        }
        m
    }

    /// The points of one immutable segment, written in the order of their rows.
    pub fn renewed<N, S>(&self, si: usize, kernel: &Kernel<N, S>) -> (m: MutableSegment) where
        N: Fn(&[u32]) -> u32,
        S: Fn(Metric, &[u32], u32, &[u32], u32) -> u32,

        requires
            self.valid(),
            kernel.valid(),
            si < self.immutables@.len(),
        ensures
            m.valid(),
            m.width() == self.width(),
            m.table() == no_rows().put_all(
                renormed(
                    live_rows(
                        self.immutables@[si as int].rows(),
                        self.immutables@[si as int].dead(),
                    ),
                    *kernel,
                ),
            ),
            m.dead() == Set::<u32>::empty(),
            m.live() == self.immutables@[si as int].live(),
            m.rows().len() <= self.immutables@[si as int].live().len(),
    {
        let seg = &self.immutables[si];
        let mut m = MutableSegment::new(self.mutable.dim());
        proof {
            seg.lemma_valid();
            lemma_live_len(seg.rows(), seg.index(), seg.dead());
            assert(m.table() =~= no_rows());
        }
        absorb(&mut m, seg, kernel);
        proof {
            lemma_put_dead(no_rows(), renormed(live_rows(seg.rows(), seg.dead()), *kernel));
            assert(m.dead() == m.table().dead);
            assert(m.live() =~= seg.live());
        }
        m
    }
}

/// What some segments layer, once the points of one of them are settled.
proof fn lemma_layered_settled(segs: Seq<ImmutableSegment>, si: int, seg: ImmutableSegment)
    requires
        0 <= si < segs.len(),
        seg.live() == settled_live(segs[si].live()),
    ensures
        settled_live(layered(segs.update(si, seg))) == settled_live(layered(segs)),
    decreases segs.len(),
{
    let after = segs.update(si, seg);
    let rest = segs.drop_last();
    if si == segs.len() - 1 {
        assert(after.drop_last() =~= rest);
    } else {
        lemma_layered_settled(rest, si, seg);
        assert(after.drop_last() =~= rest.update(si, seg));
        assert forall|id: IdView| #[trigger] layered(after.drop_last()).contains_key(id) implies (
        settled_live(layered(after.drop_last()))[id] == settled_entry(
            layered(after.drop_last())[id],
        )) by {}
        assert(settled_live(layered(after.drop_last())).dom() =~= settled_live(
            layered(rest),
        ).dom());
    }
    assert forall|id: IdView| #[trigger] settled_live(layered(after)).contains_key(id)
        <==> settled_live(layered(segs)).contains_key(id) by {
        assert(settled_live(layered(after.drop_last())).contains_key(id) <==> settled_live(
            layered(rest),
        ).contains_key(id));
    }
    assert forall|id: IdView| #[trigger]
        settled_live(layered(after)).contains_key(id) implies settled_live(layered(after))[id]
        == settled_live(layered(segs))[id] by {
        assert(settled_live(layered(after.drop_last())).contains_key(id) ==> settled_live(
            layered(after.drop_last()),
        )[id] == settled_live(layered(rest))[id]);
    }
    assert(settled_live(layered(after)) =~= settled_live(layered(segs)));
}

/// What some segments layer, without one that holds no points.
proof fn lemma_layered_removed(segs: Seq<ImmutableSegment>, si: int)
    requires
        0 <= si < segs.len(),
        segs[si].live() =~= Map::<IdView, Entry>::empty(),
    ensures
        layered(segs.remove(si)) == layered(segs),
    decreases segs.len(),
{
    let after = segs.remove(si);
    if si == segs.len() - 1 {
        assert(after =~= segs.drop_last());
        assert(layered(segs) =~= layered(segs.drop_last()));
    } else {
        lemma_layered_removed(segs.drop_last(), si);
        assert(after.drop_last() =~= segs.drop_last().remove(si));
        assert(after.last() == segs.last());
    }
}

impl CollView {
    /// Takes over a segment that holds the points of the mutable segment, which is empty
    /// afterwards.
    pub fn install_flushed(&mut self, seg: ImmutableSegment)
        requires
            old(self).valid(),
            seg.valid(),
            seg.width() == old(self).width(),
            seg.live() == settled_live(old(self).mutable.live()),
        ensures
            final(self).valid(),
            final(self).width() == old(self).width(),
            final(self).immutables@ == old(self).immutables@.push(seg),
            final(self).mutable.table() == no_rows(),
            final(self).contents() == layered(old(self).immutables@).union_prefer_right(
                settled_live(old(self).mutable.live()),
            ),
            settled_live(final(self).contents()) == settled_live(old(self).contents()),
            old(self).apart() ==> final(self).apart(),
    {
        let ghost segs = self.immutables@;
        let ghost before = *self;
        proof {
            self.mutable.lemma_valid();
        }
        self.immutables.push(seg);
        self.mutable.clear();
        proof {
            let after = self.immutables@;
            assert(after.drop_last() =~= segs);
            assert(self.mutable.live() =~= Map::<IdView, Entry>::empty());
            assert(self.mutable.table() =~= no_rows());
            assert(self.contents() =~= layered(after));
            assert(settled_live(self.contents()) =~= settled_live(before.contents()));
            if before.apart() {
                assert forall|i: int, j: int, id: IdView|
                    #![trigger after[i].live().contains_key(id), after[j].live().contains_key(id)]
                    0 <= i < j < after.len() && after[i].live().contains_key(
                        id,
                    ) implies !after[j].live().contains_key(id) by {
                    assert(after[i] == segs[i]);
                    assert(segs[i].live().contains_key(id));
                    if j < segs.len() {
                        assert(after[j] == segs[j]);
                    } else if after[j].live().contains_key(id) {
                        assert(before.mutable.live().contains_key(id));
                        assert(before.mutable.index().contains_key(id));
                    }
                }
            }
        }
    }

    /// Takes over a segment that holds all points, in place of all segments; nothing
    /// where there are no points.
    pub fn install_compacted(&mut self, seg: Option<ImmutableSegment>)
        requires
            old(self).valid(),
            match seg {
                Some(s) => s.valid() && s.width() == old(self).width() && s.live() == settled_live(
                    old(self).contents(),
                ),
                None => old(self).contents() == Map::<IdView, Entry>::empty(),
            },
        ensures
            final(self).valid(),
            final(self).width() == old(self).width(),
            final(self).immutables@ == (match seg {
                Some(s) => seq![s],
                None => Seq::<ImmutableSegment>::empty(),
            }),
            final(self).mutable.table() == no_rows(),
            final(self).contents() == settled_live(old(self).contents()),
            final(self).apart(),
    {
        let ghost before = *self;
        let mut segs: Vec<ImmutableSegment> = Vec::new();
        if let Some(s) = seg {
            segs.push(s);
        }
        self.immutables = segs;
        self.mutable.clear();
        proof {
            let after = self.immutables@;
            assert(self.mutable.live() =~= Map::<IdView, Entry>::empty());
            assert(self.mutable.table() =~= no_rows());
            if seg is Some {
                assert(after =~= seq![seg->0]);
                assert(after.drop_last() =~= Seq::<ImmutableSegment>::empty());
                assert(layered(after) =~= seg->0.live()) by {
                    reveal_with_fuel(layered, 2);
                }
            } else {
                assert(after =~= Seq::<ImmutableSegment>::empty());
            }
            assert(self.contents() =~= settled_live(before.contents()));
        }
    }

    /// Takes over a segment that holds the points of immutable segment `si`, in its place;
    /// nothing where it has no points.
    pub fn install_rebuilt(&mut self, si: usize, seg: Option<ImmutableSegment>)
        requires
            old(self).valid(),
            si < old(self).immutables@.len(),
            match seg {
                Some(s) => s.valid() && s.width() == old(self).width() && s.live() == settled_live(
                    old(self).immutables@[si as int].live(),
                ),
                None => old(self).immutables@[si as int].live() == Map::<IdView, Entry>::empty(),
            },
        ensures
            final(self).valid(),
            final(self).width() == old(self).width(),
            final(self).immutables@ == (match seg {
                Some(s) => old(self).immutables@.update(si as int, s),
                None => old(self).immutables@.remove(si as int),
            }),
            final(self).mutable == old(self).mutable,
            settled_live(final(self).contents()) == settled_live(old(self).contents()),
            old(self).apart() ==> final(self).apart(),
    {
        let ghost segs = self.immutables@;
        let ghost before = *self;
        match seg {
            Some(s) => {
                self.immutables.set(si, s);
                proof {
                    let after = self.immutables@;
                    lemma_layered_settled(segs, si as int, s);
                    let a = layered(after);
                    let b = layered(segs);
                    assert(settled_live(self.contents()) =~= settled_live(before.contents())) by {
                        assert forall|id: IdView| a.contains_key(id) <==> #[trigger] b.contains_key(
                            id,
                        ) by {
                            assert(settled_live(a).contains_key(id) <==> settled_live(
                                b,
                            ).contains_key(id));
                        }
                        assert forall|id: IdView| #[trigger] a.contains_key(
                            id,
                        ) implies settled_entry(a[id]) == settled_entry(b[id]) by {
                            assert(settled_live(a)[id] == settled_live(b)[id]);
                        }
                    }
                    assert forall|i: int, id: IdView|
                        0 <= i < after.len() implies (#[trigger] after[i].live().contains_key(id)
                        <==> segs[i].live().contains_key(id)) by {}
                    if before.apart() {
                        assert forall|i: int, j: int, id: IdView|
                            #![trigger after[i].live().contains_key(id), after[j].live().contains_key(id)]
                            0 <= i < j < after.len() && after[i].live().contains_key(
                                id,
                            ) implies !after[j].live().contains_key(id) by {
                            assert(segs[i].live().contains_key(id));
                            assert(!segs[j].live().contains_key(id));
                        }
                        assert forall|i: int, id: IdView|
                            #![trigger after[i].live().contains_key(id)]
                            0 <= i < after.len() && self.mutable.index().contains_key(
                                id,
                            ) implies !after[i].live().contains_key(id) by {
                            assert(!segs[i].live().contains_key(id));
                        }
                    }
                }
            },
            None => {
                self.immutables.remove(si);
                proof {
                    let after = self.immutables@;
                    lemma_layered_removed(segs, si as int);
                    assert forall|i: int| 0 <= i < after.len() implies #[trigger] after[i]
                        == segs[if i < si {
                        i
                    } else {
                        i + 1
                    }] by {}
                    if before.apart() {
                        assert forall|i: int, j: int, id: IdView|
                            #![trigger after[i].live().contains_key(id), after[j].live().contains_key(id)]
                            0 <= i < j < after.len() && after[i].live().contains_key(
                                id,
                            ) implies !after[j].live().contains_key(id) by {
                            let x = if i < si {
                                i
                            } else {
                                i + 1
                            };
                            let y = if j < si {
                                j
                            } else {
                                j + 1
                            };
                            assert(segs[x].live().contains_key(id));
                            assert(!segs[y].live().contains_key(id));
                        }
                        assert forall|i: int, id: IdView|
                            #![trigger after[i].live().contains_key(id)]
                            0 <= i < after.len() && self.mutable.index().contains_key(
                                id,
                            ) implies !after[i].live().contains_key(id) by {
                            let x = if i < si {
                                i
                            } else {
                                i + 1
                            };
                            assert(!segs[x].live().contains_key(id));
                        }
                    }
                }
            },
        }
    }
}

/// Writes the points of a mutable segment that are alive, in the order of their rows.
fn absorb_mutable<N, S>(
    merged: &mut MutableSegment,
    seg: &MutableSegment,
    kernel: &Kernel<N, S>,
) where N: Fn(&[u32]) -> u32, S: Fn(Metric, &[u32], u32, &[u32], u32) -> u32
    requires
        old(merged).valid(),
        seg.valid(),
        kernel.valid(),
        seg.width() == old(merged).width(),
        old(merged).rows().len() + seg.live().len() <= u32::MAX,
    ensures
        final(merged).valid(),
        final(merged).width() == old(merged).width(),
        final(merged).table() == old(merged).table().put_all(
            renormed(live_rows(seg.rows(), seg.dead()), *kernel),
        ),
        final(merged).live() == old(merged).live().union_prefer_right(seg.live()),
        final(merged).rows().len() <= old(merged).rows().len() + seg.live().len(),
{
    let ghost rows = seg.rows();
    let ghost index = seg.index();
    let ghost dead = seg.dead();
    let ghost before = *merged;
    proof {
        seg.lemma_valid();
        lemma_live_rows(rows, index, dead);
        assert(renormed(listing(rows, dead, None::<Condition>, 0), *kernel) =~= Seq::<Row>::empty());
        assert(merged.live() =~= before.live().union_prefer_right(
            live_upto(rows, index, dead, 0),
        ));
    }
    let total: u32 = seg.total() as u32;
    let mut idx: u32 = 0;
    while idx < total
        invariant
            idx <= total,
            total == rows.len(),
            seg.valid(),
            rows == seg.rows(),
            index == seg.index(),
            dead == seg.dead(),
            indexed(rows, index),
            kernel.valid(),
            before == *old(merged),
            merged.valid(),
            merged.width() == before.width(),
            seg.width() == before.width(),
            before.rows().len() + listing(rows, dead, None::<Condition>, total as nat).len()
                <= u32::MAX,
            merged.rows().len() <= before.rows().len() + listing(
                rows,
                dead,
                None::<Condition>,
                idx as nat,
            ).len(),
            merged.table() == before.table().put_all(
                renormed(listing(rows, dead, None::<Condition>, idx as nat), *kernel),
            ),
            merged.live() == before.live().union_prefer_right(
                live_upto(rows, index, dead, idx as nat),
            ),
        decreases total - idx,
    {
        let ghost part = listing(rows, dead, None::<Condition>, idx as nat);
        let ghost more = listing(rows, dead, None::<Condition>, (idx + 1) as nat);
        let ghost view1 = *merged;
        proof {
            lemma_listing_longer(rows, dead, (idx + 1) as nat, total as nat);
        }
        if !seg.is_deleted(idx) {
            let p = seg.point(idx);
            merged.upsert(&p, kernel);
            proof {
                let row = rows[idx as int];
                assert(more =~= part.push(row));
                assert(renormed(more, *kernel).drop_last() =~= renormed(part, *kernel));
                assert(p.row(kernel.norm_of(p.vector@)) == renormed(more, *kernel).last());
                view1.lemma_valid();
                assert(merged.rows() == merged.table().rows);
                assert(index[row.id] == idx);
                assert(merged.live() =~= before.live().union_prefer_right(
                    live_upto(rows, index, dead, (idx + 1) as nat),
                ));
            }
        } else {
            proof {
                assert(more =~= part);
                assert(live_upto(rows, index, dead, (idx + 1) as nat) =~= live_upto(
                    rows,
                    index,
                    dead,
                    idx as nat,
                ));
            }
        }
        idx = idx + 1;
    }
    proof {
        assert(live_upto(rows, index, dead, total as nat) =~= seg.live());
    }
}

} // verus!
