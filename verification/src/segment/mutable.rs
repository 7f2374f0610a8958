//! The mutable segment. It takes all writes. Writing a point again reuses its row, and
//! deleting one marks its row.

use roaring::RoaringBitmap;
use vstd::prelude::*;

use crate::bitmap::{
    bitmap_clear, bitmap_contains, bitmap_insert, bitmap_len, bitmap_remove, empty_bitmap, rows_of,
};
use crate::count::plus;
use crate::id::{ExternalId, IdMap, IdView};
use crate::json::{text_len_of, Json, JsonView};
use crate::kernel::{Kernel, Metric};
use crate::segment::data::SegmentCore;
use crate::segment::{
    copy_payload, copy_vector, dead_within, indexed, lemma_live_len, live_of, payload_view, Entry,
    Point, Row, Table,
};

verus! {

/// The length of the text of a payload; nothing where there is no payload.
pub open spec fn payload_len(p: Option<JsonView>) -> nat {
    match p {
        Some(v) => text_len_of(v),
        None => 0,
    }
}

/// The lengths of the texts of the payloads of some rows, added up.
pub open spec fn payloads_len(rows: Seq<Row>) -> nat
    decreases rows.len(),
{
    if rows.len() == 0 {
        0
    } else {
        payloads_len(rows.drop_last()) + payload_len(rows.last().payload)
    }
}

proof fn lemma_payloads_update(rows: Seq<Row>, i: int, row: Row)
    requires
        0 <= i < rows.len(),
    ensures
        payloads_len(rows.update(i, row)) + payload_len(rows[i].payload) == payloads_len(rows)
            + payload_len(row.payload),
    decreases rows.len(),
{
    let after = rows.update(i, row);
    if i == rows.len() - 1 {
        assert(after.drop_last() =~= rows.drop_last());
    } else {
        lemma_payloads_update(rows.drop_last(), i, row);
        assert(after.drop_last() =~= rows.drop_last().update(i, row));
    }
}

/// The mutable segment.
pub struct MutableSegment {
    core: SegmentCore,
    payload_bytes: u64,
    ext2int: IdMap<u32>,
    deleted: RoaringBitmap,
}

impl MutableSegment {
    /// The rows, the deleted ones included.
    pub closed spec fn rows(&self) -> Seq<Row> {
        self.core.rows()
    }

    /// The number of the row of each identifier.
    pub closed spec fn index(&self) -> Map<IdView, u32> {
        self.ext2int@
    }

    /// The numbers of the deleted rows.
    pub closed spec fn dead(&self) -> Set<u32> {
        rows_of(self.deleted)
    }

    /// The dimension of the vectors.
    pub closed spec fn width(&self) -> nat {
        self.core.dim as nat
    }

    /// The rows as they are stored.
    pub closed spec fn store(&self) -> SegmentCore {
        self.core
    }

    /// The rows, where each identifier has its row, and which rows are dead.
    pub open spec fn table(&self) -> Table {
        Table { rows: self.rows(), index: self.index(), dead: self.dead() }
    }

    /// The points that are alive.
    pub open spec fn live(&self) -> Map<IdView, Entry> {
        live_of(self.rows(), self.index(), self.dead())
    }

    /// Each point has one row, and everything that is counted is counted right.
    pub closed spec fn valid(&self) -> bool {
        &&& self.core.valid()
        &&& self.rows().len() <= u32::MAX
        &&& indexed(self.rows(), self.index())
        &&& dead_within(self.dead(), self.rows().len())
        &&& self.payload_bytes == payloads_len(self.rows()) % 0x1_0000_0000_0000_0000
    }

    /// What validity says to others.
    pub proof fn lemma_valid(&self)
        requires
            self.valid(),
        ensures
            self.store().valid(),
            self.store().rows() == self.rows(),
            self.store().dim == self.width(),
            self.rows().len() <= u32::MAX,
            indexed(self.rows(), self.index()),
            dead_within(self.dead(), self.rows().len()),
    {
    }

    /// Where no row is deleted, there are as many points as rows.
    pub proof fn lemma_all_alive(&self)
        requires
            self.valid(),
            self.dead() == Set::<u32>::empty(),
        ensures
            self.live().len() == self.rows().len(),
            self.live().dom().finite(),
    {
        self.lemma_valid();
        lemma_live_len(self.rows(), self.index(), self.dead());
    }

    /// An empty segment.
    pub fn new(dim: usize) -> (r: Self)
        ensures
            r.valid(),
            r.width() == dim,
            r.rows() == Seq::<Row>::empty(),
            r.index() == Map::<IdView, u32>::empty(),
            r.dead() == Set::<u32>::empty(),
    {
        MutableSegment {
            core: SegmentCore::new(dim),
            payload_bytes: 0,
            ext2int: IdMap::new(),
            deleted: empty_bitmap(),
        }
    }

    /// The dimension of the vectors.
    pub fn dim(&self) -> (r: usize)
        ensures
            r == self.width(),
    {
        self.core.dim
    }

    /// Takes the payload of a row out of the count, and another one into it.
    fn recount(&mut self, old_len: u64, new_len: u64, Ghost(a): Ghost<nat>, Ghost(b): Ghost<nat>)
        requires
            old_len == a % 0x1_0000_0000_0000_0000,
            new_len == b % 0x1_0000_0000_0000_0000,
            payloads_len(old(self).core.rows()) + a >= b,
            old(self).payload_bytes == (payloads_len(old(self).core.rows()) + a - b)
                % 0x1_0000_0000_0000_0000,
        ensures
            final(self).core == old(self).core,
            final(self).ext2int == old(self).ext2int,
            final(self).deleted == old(self).deleted,
            final(self).payload_bytes == payloads_len(final(self).core.rows())
                % 0x1_0000_0000_0000_0000,
    {
        let ghost t = payloads_len(self.core.rows()) as int;
        let ghost m = 0x1_0000_0000_0000_0000int;
        proof {
            vstd::arithmetic::div_mod::lemma_sub_mod_noop(t + a - b, a as int, m);
            vstd::arithmetic::div_mod::lemma_add_mod_noop(t - b, b as int, m);
        }
        let less: u64 = self.payload_bytes.wrapping_sub(old_len);
        assert(less == (t - b) % m);
        self.payload_bytes = less.wrapping_add(new_len);
    }

    /// Writes a point: over the row of its identifier, which is alive afterwards, or
    /// else into a new row.
    pub fn upsert<N, S>(&mut self, p: &Point, kernel: &Kernel<N, S>) where
        N: Fn(&[u32]) -> u32,
        S: Fn(Metric, &[u32], u32, &[u32], u32) -> u32,

        requires
            old(self).valid(),
            kernel.valid(),
            p.vector@.len() == old(self).width(),
            old(self).rows().len() < u32::MAX,
        ensures
            final(self).valid(),
            final(self).width() == old(self).width(),
            final(self).table() == old(self).table().put(p.row(kernel.norm_of(p.vector@))),
            final(self).live() == old(self).live().insert(p.id@, p.entry()),
    {
        let ghost rows0 = self.rows();
        let ghost index0 = self.index();
        let ghost dead0 = self.dead();
        let ghost row = p.row(kernel.norm_of(p.vector@));
        let norm: u32 = kernel.norm(p.vector.as_slice());
        let new_len: u64 = text_len(&p.payload);
        match self.ext2int.get(&p.id) {
            Some(idx) => {
                let old_len: u64 = text_len(&self.core.payloads[idx as usize]);
                assert(rows0[idx as int].id == p.id@);
                self.core.set_row(idx, p.vector.as_slice(), norm, &p.payload);
                proof {
                    lemma_payloads_update(rows0, idx as int, row);
                    assert(self.core.rows() =~= rows0.update(idx as int, row));
                }
                self.recount(
                    old_len,
                    new_len,
                    Ghost(payload_len(rows0[idx as int].payload)),
                    Ghost(payload_len(row.payload)),
                );
                bitmap_remove(&mut self.deleted, idx);
            },
            None => {
                let idx: u32 = self.core.len() as u32;
                self.core.push_row(&p.id, p.vector.as_slice(), norm, &p.payload);
                proof {
                    assert(rows0.push(row).drop_last() =~= rows0);
                    if dead0.contains(idx) {
                        assert(idx < rows0.len());
                    }
                }
                self.recount(0, new_len, Ghost(0), Ghost(payload_len(row.payload)));
                self.ext2int.insert(&p.id, idx);
            },
        }
        proof {
            let rows = self.rows();
            let index = self.index();
            assert(indexed(rows, index)) by {
                assert forall|i: int| 0 <= i < rows.len() implies index.contains_key(
                    (#[trigger] rows[i]).id,
                ) && index[rows[i].id] == i by {
                    if i < rows0.len() {
                        assert(rows[i].id == rows0[i].id);
                    }
                }
                assert forall|id: IdView| #[trigger] index.contains_key(id) implies index[id]
                    < rows.len() && rows[index[id] as int].id == id by {
                    if id != p.id@ {
                        assert(index0.contains_key(id));
                    }
                }
            }
            assert(self.live() =~= live_of(rows0, index0, dead0).insert(p.id@, p.entry()));
        }
    }

    /// Deletes a point. Says whether it was alive.
    pub fn delete(&mut self, id: &ExternalId) -> (r: bool)
        requires
            old(self).valid(),
        ensures
            final(self).valid(),
            final(self).width() == old(self).width(),
            final(self).rows() == old(self).rows(),
            final(self).index() == old(self).index(),
            r == old(self).live().contains_key(id@),
            final(self).dead() == (if r {
                old(self).dead().insert(old(self).index()[id@])
            } else {
                old(self).dead()
            }),
            final(self).live() == old(self).live().remove(id@),
    {
        let ghost live0 = self.live();
        match self.ext2int.get(id) {
            Some(idx) => {
                if bitmap_contains(&self.deleted, idx) {
                    assert(self.live() =~= live0.remove(id@));
                    false
                } else {
                    bitmap_insert(&mut self.deleted, idx);
                    assert(self.live() =~= live0.remove(id@)) by {
                        assert forall|other: IdView|
                            self.index().contains_key(other) && other != id@ implies #[trigger] self.index()[other]
                            != idx by {}
                    }
                    true
                }
            },
            None => {
                assert(self.live() =~= live0.remove(id@));
                false
            },
        }
    }

    /// Gives a point another payload. Says whether it is alive.
    pub fn set_payload(&mut self, id: &ExternalId, payload: &Option<Json>) -> (r: bool)
        requires
            old(self).valid(),
        ensures
            final(self).valid(),
            final(self).width() == old(self).width(),
            final(self).index() == old(self).index(),
            final(self).dead() == old(self).dead(),
            r == old(self).live().contains_key(id@),
            final(self).rows() == (if r {
                let i = old(self).index()[id@] as int;
                old(self).rows().update(
                    i,
                    (Row { payload: payload_view(*payload), ..old(self).rows()[i] }),
                )
            } else {
                old(self).rows()
            }),
            final(self).live() == (if r {
                old(self).live().insert(
                    id@,
                    (Entry { payload: payload_view(*payload), ..old(self).live()[id@] }),
                )
            } else {
                old(self).live()
            }),
    {
        let ghost rows0 = self.rows();
        let ghost live0 = self.live();
        match self.ext2int.get(id) {
            Some(idx) => {
                if bitmap_contains(&self.deleted, idx) {
                    false
                } else {
                    let old_len: u64 = text_len(&self.core.payloads[idx as usize]);
                    let new_len: u64 = text_len(payload);
                    self.core.set_row_payload(idx, payload);
                    let ghost row = Row {
                        payload: payload_view(*payload),
                        ..rows0[idx as int]
                    };
                    proof {
                        lemma_payloads_update(rows0, idx as int, row);
                    }
                    self.recount(
                        old_len,
                        new_len,
                        Ghost(payload_len(rows0[idx as int].payload)),
                        Ghost(payload_len(row.payload)),
                    );
                    proof {
                        let rows = self.rows();
                        assert forall|i: int| 0 <= i < rows.len() implies (#[trigger] rows[i]).id
                            == rows0[i].id by {}
                        assert(self.live() =~= live0.insert(
                            id@,
                            Entry { payload: payload_view(*payload), ..live0[id@] },
                        ));
                    }
                    true
                }
            },
            None => false,
        }
    }

    /// The row of a point that is alive.
    pub fn alive_index(&self, id: &ExternalId) -> (r: Option<u32>)
        requires
            self.valid(),
        ensures
            r == (if self.live().contains_key(id@) {
                Some(self.index()[id@])
            } else {
                None
            }),
    {
        match self.ext2int.get(id) {
            Some(idx) => if bitmap_contains(&self.deleted, idx) {
                None
            } else {
                Some(idx)
            },
            None => None,
        }
    }

    /// Whether there is a row for an identifier, be it alive or deleted.
    pub fn contains(&self, id: &ExternalId) -> (r: bool)
        ensures
            r == self.index().contains_key(id@),
    {
        self.ext2int.get(id).is_some()
    }

    /// The point of a row.
    pub fn point(&self, idx: u32) -> (r: Point)
        requires
            self.valid(),
            idx < self.rows().len(),
        ensures
            r.id@ == self.rows()[idx as int].id,
            r.entry() == self.rows()[idx as int].entry(),
            r.vector@.len() == self.width(),
    {
        proof {
            crate::segment::data::lemma_row_within(
                idx as int,
                self.core.ids@.len() as int,
                self.core.dim as int,
            );
        }
        Point {
            id: self.core.ids[idx as usize].clone(),
            vector: copy_vector(self.core.vector(idx)),
            payload: copy_payload(&self.core.payloads[idx as usize]),
        }
    }

    /// Whether a row is deleted.
    pub fn is_deleted(&self, idx: u32) -> (r: bool)
        ensures
            r == self.dead().contains(idx),
    {
        bitmap_contains(&self.deleted, idx)
    }

    /// Whether there are no rows at all.
    pub fn is_empty(&self) -> (r: bool)
        ensures
            r == (self.rows().len() == 0),
    {
        self.core.is_empty()
    }

    /// The number of rows, the deleted ones included.
    pub fn total(&self) -> (r: usize)
        ensures
            r == self.rows().len(),
    {
        self.core.len()
    }

    /// The number of points that are alive.
    pub fn alive(&self) -> (r: u64)
        requires
            self.valid(),
        ensures
            r == self.live().len(),
            self.live().dom().finite(),
    {
        proof {
            lemma_live_len(self.rows(), self.index(), self.dead());
        }
        self.core.len() as u64 - bitmap_len(&self.deleted)
    }

    /// Roughly how many bytes the segment takes: four for each component of a vector,
    /// and the texts of the payloads. It is counted modulo 2^64.
    pub fn approx_bytes(&self) -> (r: u64)
        requires
            self.valid(),
        ensures
            r == (4 * (self.rows().len() * self.width()) + payloads_len(self.rows()))
                % 0x1_0000_0000_0000_0000,
    {
        let ghost n = self.core.vectors@.len();
        let once: u64 = self.core.vectors.len() as u64;
        let twice: u64 = plus(once, once, Ghost(n), Ghost(n));
        let all: u64 = plus(twice, twice, Ghost(2 * n), Ghost(2 * n));
        plus(all, self.payload_bytes, Ghost(4 * n), Ghost(payloads_len(self.rows())))
    }

    /// Takes everything out.
    pub fn clear(&mut self)
        ensures
            final(self).valid(),
            final(self).width() == old(self).width(),
            final(self).rows() == Seq::<Row>::empty(),
            final(self).index() == Map::<IdView, u32>::empty(),
            final(self).dead() == Set::<u32>::empty(),
    {
        self.core.clear();
        self.payload_bytes = 0;
        self.ext2int.clear();
        bitmap_clear(&mut self.deleted);
    }

    /// The rows.
    pub fn data(&self) -> (r: &SegmentCore)
        ensures
            *r == self.store(),
    {
        &self.core
    }

    /// The numbers of the deleted rows.
    pub fn deleted(&self) -> (r: &RoaringBitmap)
        ensures
            rows_of(*r) == self.dead(),
    {
        &self.deleted
    }
}

/// The length of the text of a payload.
fn text_len(p: &Option<Json>) -> (r: u64)
    ensures
        r == payload_len(payload_view(*p)) % 0x1_0000_0000_0000_0000,
{
    match p {
        Some(v) => v.text_len(),
        None => 0,
    }
}

} // verus!
