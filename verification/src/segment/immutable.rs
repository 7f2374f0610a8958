//! Immutable segments. Their rows never change; deleted rows are marked, and new
//! payloads are laid over the old ones.
//!
//! The directory of a segment holds these files:
//! - a description: the number of the segment, the dimension, the number of rows
//! - the components of the vectors, and the norms, as little-endian integers
//! - the identifiers and the payloads, a line for each row
//! - where there are any, the marks of the deleted rows, the new payloads, and the
//!   graph index

use roaring::RoaringBitmap;
use vstd::prelude::*;

use crate::bitmap::{
    bitmap_bytes, bitmap_contains, bitmap_from_bytes, bitmap_insert, bitmap_len, decoded_rows,
    empty_bitmap, rows_of,
};
use crate::bytes::{law_le32_all_round_trip, le32_all, push_u32s, u32s_at};
use crate::error::{Error, Invalid};
use crate::id::{ExternalId, IdMap, IdView};
use crate::index::flat::{kept_of, law_exact_presents, row_scores, with_scores, FlatIndex};
use crate::index::hnsw::image::{image_of, read_image};
use crate::index::hnsw::{answer, law_answers_present, HnswIndex};
use crate::index::{admitted, filter_valid, presents, RowFilter};
use crate::json::{Json, JsonView};
use crate::kernel::{Kernel, Metric};
use crate::segment::data::{lemma_row_within, SegmentCore};
use crate::segment::mutable::MutableSegment;
use crate::segment::overlay::{overlaid, Overlay};
use crate::segment::{
    copy_payload, copy_vector, dead_within, indexed, lemma_live_len, live_of, payload_view, Entry,
    Point, Row,
};
use crate::storage::layout::{number_named, segment_number};
use crate::storage::path::FsPath;

verus! {

/// The description of a segment.
#[derive(Debug, Clone, Copy, PartialEq, Eq, Structural)]
pub struct Meta {
    /// The number of the segment.
    pub seg_id: u64,
    /// The dimension of the vectors.
    pub dim: usize,
    /// The number of rows.
    pub count: usize,
}

/// What the files of a segment hold.
pub struct SegmentParts {
    /// The description.
    pub meta: Meta,
    /// The bytes of the vectors.
    pub vectors: Vec<u8>,
    /// The bytes of the norms.
    pub norms: Vec<u8>,
    /// The identifiers.
    pub ids: Vec<ExternalId>,
    /// The payloads; `null` where a row has none.
    pub payloads: Vec<Json>,
    /// The bytes of the marks of deleted rows.
    pub dels: Option<Vec<u8>>,
    /// The new payloads.
    pub overlay: Vec<(ExternalId, Option<Json>)>,
    /// The bytes of the graph index.
    pub index: Option<Vec<u8>>,
}

/// An immutable segment.
pub struct ImmutableSegment {
    seg_id: u64,
    core: SegmentCore,
    ext2int: IdMap<u32>,
    deleted: RoaringBitmap,
    overlay: Overlay,
    ann: Option<HnswIndex>,
}

/// A row once new payloads are laid over.
pub open spec fn covered(row: Row, over: Map<IdView, Option<JsonView>>) -> Row {
    if over.contains_key(row.id) {
        Row { payload: over[row.id], ..row }
    } else {
        row
    }
}

/// Points once those of some identifiers have another payload.
pub open spec fn repaid(
    live: Map<IdView, Entry>,
    ids: Set<IdView>,
    payload: Option<JsonView>,
) -> Map<IdView, Entry> {
    Map::new(
        |id: IdView| live.contains_key(id),
        |id: IdView|
            if ids.contains(id) {
                Entry { payload, ..live[id] }
            } else {
                live[id]
            },
    )
}

/// Rows once new payloads are laid over.
pub open spec fn all_covered(rows: Seq<Row>, over: Map<IdView, Option<JsonView>>) -> Seq<Row> {
    Seq::new(rows.len(), |i: int| covered(rows[i], over))
}

/// The payload that a line stands for: none for `null`.
pub open spec fn line_payload(v: Json) -> Option<JsonView> {
    if v@ is Null {
        None
    } else {
        Some(v@)
    }
}

/// The line of a payload: `null` where there is none.
pub open spec fn payload_line(p: Option<JsonView>) -> JsonView {
    match p {
        Some(v) => v,
        None => JsonView::Null,
    }
}

/// A payload as files keep it: `null` is no payload.
pub open spec fn settled(p: Option<JsonView>) -> Option<JsonView> {
    if p == Some(JsonView::Null) {
        None
    } else {
        p
    }
}

/// Whether two payloads are the same, where `null` is taken for no payload.
pub open spec fn alike_payloads(a: Option<JsonView>, b: Option<JsonView>) -> bool {
    a == b || ((a is None || a->0 is Null) && (b is None || b->0 is Null))
}

/// Files keep every payload as it is, but for `null`, which they take for no payload. This holds of
/// payloads, of what is kept of points, and of the lines of files.
pub proof fn law_payloads_are_kept(p: Option<JsonView>, line: Json, e: Entry)
    ensures
        p is Some && !(p->0 is Null) ==> settled(p) == p,
        p is None || p->0 is Null ==> settled(p) is None,
        line@ == payload_line(p) ==> line_payload(line) == settled(p),
        !(line@ is Null) ==> line_payload(line) == Some(line@),
        settled_entry(e).vector == e.vector,
        alike_payloads(settled_entry(e).payload, e.payload),
{
}

/// Points are the same as files keep them: the same identifiers lead to the same vectors, and to the
/// same payloads where these are not `null`.
pub proof fn law_points_are_kept(live: Map<IdView, Entry>)
    ensures
        settled_live(live).dom() == live.dom(),
        forall|id: IdView| #[trigger]
            live.contains_key(id) ==> settled_live(live)[id].vector == live[id].vector
                && alike_payloads(settled_live(live)[id].payload, live[id].payload),
{
    assert(settled_live(live).dom() =~= live.dom());
}

/// Rows as files keep them.
pub open spec fn settled_rows(rows: Seq<Row>) -> Seq<Row> {
    Seq::new(rows.len(), |i: int| Row { payload: settled(rows[i].payload), ..rows[i] })
}

/// What is kept of a point, as files keep it.
pub open spec fn settled_entry(e: Entry) -> Entry {
    Entry { payload: settled(e.payload), ..e }
}

/// Points as files keep them.
pub open spec fn settled_live(live: Map<IdView, Entry>) -> Map<IdView, Entry> {
    Map::new(|id: IdView| live.contains_key(id), |id: IdView| settled_entry(live[id]))
}

/// Whether files hold the rows of a mutable segment.
pub open spec fn keeps(parts: SegmentParts, seg_id: u64, m: MutableSegment) -> bool {
    &&& parts.meta == (Meta { seg_id, dim: m.store().dim, count: m.rows().len() as usize })
    &&& parts.vectors@ == le32_all(m.store().vectors@)
    &&& parts.norms@ == le32_all(m.store().norms@)
    &&& parts.ids@.len() == m.rows().len()
    &&& forall|i: int| 0 <= i < parts.ids@.len() ==> (#[trigger] parts.ids@[i])@ == m.rows()[i].id
    &&& parts.payloads@.len() == m.rows().len()
    &&& forall|i: int|
        0 <= i < parts.payloads@.len() ==> (#[trigger] parts.payloads@[i])@ == payload_line(
            m.rows()[i].payload,
        )
    &&& parts.dels is None <==> m.dead() =~= Set::<u32>::empty()
    &&& parts.dels is Some ==> decoded_rows(parts.dels->0@) is Some && decoded_rows(
        parts.dels->0@,
    )->0.to_set() == m.dead()
    &&& parts.overlay@.len() == 0
    &&& parts.index is None
}

/// The marks of deleted rows that the files of a segment hold.
pub open spec fn stored_dead(parts: SegmentParts) -> Set<u32> {
    match parts.dels {
        None => Set::<u32>::empty(),
        Some(bytes) => decoded_rows(bytes@)->0.to_set(),
    }
}

/// Files that keep the rows of a mutable segment hold its rows, under the same numbers, and
/// the same ones deleted.
pub proof fn lemma_kept_parts(seg_id: u64, m: MutableSegment, parts: SegmentParts)
    requires
        m.valid(),
        keeps(parts, seg_id, m),
    ensures
        parts_fault(seg_id, parts) is None,
        stored_rows(parts) == settled_rows(m.rows()),
        last_places(parts.ids@) == m.index(),
        stored_dead(parts) == m.dead(),
        overlaid(Map::empty(), parts.overlay@) == Map::<IdView, Option<JsonView>>::empty(),
{
    m.lemma_valid();
    let rows = m.rows();
    let n = rows.len();
    let w = m.store().dim;
    law_le32_all_round_trip(m.store().vectors@, Seq::empty(), Seq::empty());
    law_le32_all_round_trip(m.store().norms@, Seq::empty(), Seq::empty());
    assert(Seq::<u8>::empty() + parts.vectors@ + Seq::<u8>::empty() =~= parts.vectors@);
    assert(Seq::<u8>::empty() + parts.norms@ + Seq::<u8>::empty() =~= parts.norms@);
    assert(stored_rows(parts) =~= settled_rows(rows)) by {
        assert forall|i: int| 0 <= i < n implies #[trigger] stored_rows(parts)[i] == settled_rows(
            rows,
        )[i] by {
            lemma_row_within(i, n as int, w as int);
            assert(parts.payloads@[i]@ == payload_line(rows[i].payload));
            assert(parts.ids@[i]@ == rows[i].id);
            assert(m.store().rows()[i] == rows[i]);
        }
    }
    let ids = parts.ids@;
    assert forall|a: int, b: int| 0 <= a < b < ids.len() implies (#[trigger] ids[a])@ != (
    #[trigger] ids[b])@ by {
        assert(m.index()[rows[a].id] == a && m.index()[rows[b].id] == b);
    }
    lemma_last_places(ids);
    assert(last_places(ids) =~= m.index()) by {
        assert forall|id: IdView| #[trigger] m.index().contains_key(id) implies last_places(
            ids,
        ).contains_key(id) && last_places(ids)[id] == m.index()[id] by {
            let i = m.index()[id] as int;
            lemma_distinct_places(ids, i);
            assert(ids[i]@ == rows[i].id);
        }
        assert forall|id: IdView| #[trigger] last_places(ids).contains_key(
            id,
        ) implies m.index().contains_key(id) by {
            let i = last_places(ids)[id] as int;
            assert(ids[i]@ == rows[i].id);
        }
    }
    assert(stored_dead(parts) =~= m.dead());
}

/// Opening the files that keep the rows of a mutable segment gives its rows back: the
/// files are accepted, and the segment is valid, with the same rows under the same
/// numbers, and the same ones deleted.
pub proof fn law_segment_round_trip(
    seg_id: u64,
    m: MutableSegment,
    parts: SegmentParts,
    seg: ImmutableSegment,
)
    requires
        m.valid(),
        keeps(parts, seg_id, m),
    ensures
        parts_fault(seg_id, parts) is None,
        seg.holds(parts) ==> seg.valid() && seg.number() == seg_id && seg.width() == m.width()
            && seg.rows() == settled_rows(m.rows()) && seg.index() == m.index() && seg.dead()
            == m.dead() && seg.live() == settled_live(m.live()),
{
    m.lemma_valid();
    lemma_kept_parts(seg_id, m, parts);
    if seg.holds(parts) {
        assert(seg.rows() =~= settled_rows(m.rows()));
        seg.lemma_holds_valid(parts);
        assert(seg.live() =~= settled_live(m.live()));
    }
}

/// The rows that the files of a segment hold.
pub open spec fn stored_rows(parts: SegmentParts) -> Seq<Row> {
    let vectors = u32s_at(parts.vectors@, 0, parts.vectors@.len() / 4);
    let norms = u32s_at(parts.norms@, 0, parts.norms@.len() / 4);
    let dim = parts.meta.dim;
    Seq::new(
        parts.ids@.len(),
        |i: int|
            Row {
                id: parts.ids@[i]@,
                vector: vectors.subrange(i * dim, i * dim + dim),
                norm: norms[i],
                payload: line_payload(parts.payloads@[i]),
            },
    )
}

/// Where each identifier stands last.
pub open spec fn last_places(ids: Seq<ExternalId>) -> Map<IdView, u32>
    decreases ids.len(),
{
    if ids.len() == 0 {
        Map::empty()
    } else {
        last_places(ids.drop_last()).insert(ids.last()@, (ids.len() - 1) as u32)
    }
}

/// Whether the files of a segment have an entry for each row.
pub open spec fn sides_fit(parts: SegmentParts) -> bool {
    &&& parts.vectors@.len() % 4 == 0
    &&& parts.vectors@.len() / 4 == parts.meta.count * parts.meta.dim
    &&& parts.norms@.len() / 4 == parts.meta.count
    &&& parts.ids@.len() == parts.meta.count
    &&& parts.payloads@.len() == parts.meta.count
}

/// Whether the marks of a segment can be read, if it has any.
pub open spec fn marks_fit(parts: SegmentParts) -> bool {
    parts.dels is Some ==> decoded_rows(parts.dels->0@) is Some
}

/// What is wrong with the files of a segment, if anything is. `dir` is the number in
/// the name of the directory.
pub open spec fn parts_fault(dir: u64, parts: SegmentParts) -> Option<Invalid> {
    let meta = parts.meta;
    let components = parts.vectors@.len() / 4;
    if meta.seg_id != dir {
        Some(Invalid::SegmentIdMismatch { dir, meta: meta.seg_id })
    } else if parts.vectors@.len() % 4 != 0 {
        Some(Invalid::VectorsUnaligned)
    } else if components != meta.count * meta.dim {
        Some(
            Invalid::VectorsSize { got: components as usize, count: meta.count, dim: meta.dim },
        )
    } else if parts.norms@.len() / 4 != meta.count {
        Some(Invalid::NormsSize)
    } else if parts.ids@.len() != meta.count || parts.payloads@.len() != meta.count {
        Some(Invalid::LinesCount)
    } else if parts.dels is Some && decoded_rows(parts.dels->0@) is None {
        Some(Invalid::Tombstones)
    } else {
        match parts.index {
            None => None,
            Some(bytes) => match read_image(bytes@, meta.count) {
                Ok(_) => None,
                Err(e) => Some(e),
            },
        }
    }
}

/// The number of the segment whose files lie in a directory.
pub open spec fn dir_number(dir: Seq<Seq<char>>) -> Option<nat> {
    if dir.len() == 0 {
        None
    } else {
        number_named(dir.last())
    }
}

impl ImmutableSegment {
    /// The number of the segment.
    pub closed spec fn number(&self) -> u64 {
        self.seg_id
    }

    /// The number of the segment.
    pub fn seg_id(&self) -> (r: u64)
        ensures
            r == self.number(),
    {
        self.seg_id
    }

    /// The rows as they are stored.
    pub closed spec fn store(&self) -> SegmentCore {
        self.core
    }

    /// The new payloads.
    pub closed spec fn over(&self) -> Map<IdView, Option<JsonView>> {
        self.overlay@
    }

    /// The rows, the deleted ones included, with the new payloads.
    pub open spec fn rows(&self) -> Seq<Row> {
        all_covered(self.store().rows(), self.over())
    }

    /// The number of the row of each identifier.
    pub closed spec fn index(&self) -> Map<IdView, u32> {
        self.ext2int@
    }

    /// The numbers of the deleted rows.
    pub closed spec fn dead(&self) -> Set<u32> {
        rows_of(self.deleted)
    }

    /// The graph index.
    pub closed spec fn graph(&self) -> Option<HnswIndex> {
        self.ann
    }

    /// The dimension of the vectors.
    pub open spec fn width(&self) -> nat {
        self.store().dim as nat
    }

    /// The points that are alive.
    pub open spec fn live(&self) -> Map<IdView, Entry> {
        live_of(self.rows(), self.index(), self.dead())
    }

    /// Whether another segment is this one with the rows of some identifiers deleted.
    pub open spec fn without(&self, other: ImmutableSegment, gone: Set<IdView>) -> bool {
        &&& other.number() == self.number()
        &&& other.store() == self.store()
        &&& other.over() == self.over()
        &&& other.index() == self.index()
        &&& other.graph() == self.graph()
        &&& other.dead() == Set::new(
            |r: u32|
                self.dead().contains(r) || (r < self.rows().len() && gone.contains(
                    self.rows()[r as int].id,
                )),
        )
    }

    /// Whether another segment is this one with a payload laid over those of some
    /// identifiers.
    pub open spec fn laid(
        &self,
        other: ImmutableSegment,
        ids: Set<IdView>,
        payload: Option<JsonView>,
    ) -> bool {
        &&& other.number() == self.number()
        &&& other.store() == self.store()
        &&& other.index() == self.index()
        &&& other.graph() == self.graph()
        &&& other.dead() == self.dead()
        &&& other.over() == self.over().union_prefer_right(
            Map::new(|id: IdView| ids.contains(id), |id: IdView| payload),
        )
    }

    /// Without the rows of some identifiers, the other points stay as they are.
    pub proof fn lemma_without(&self, other: ImmutableSegment, gone: Set<IdView>)
        requires
            self.valid(),
            self.without(other, gone),
        ensures
            other.live() == self.live().remove_keys(gone),
            other.rows() == self.rows(),
    {
        self.lemma_valid();
        assert(other.live() =~= self.live().remove_keys(gone));
    }

    /// Laying a payload over changes the payloads of the points, and nothing else.
    pub proof fn lemma_laid(
        &self,
        other: ImmutableSegment,
        ids: Set<IdView>,
        payload: Option<JsonView>,
    )
        requires
            self.valid(),
            self.laid(other, ids, payload),
        ensures
            other.live() == repaid(self.live(), ids, payload),
            other.rows().len() == self.rows().len(),
    {
        self.lemma_valid();
        other.store();
        assert(other.live() =~= repaid(self.live(), ids, payload));
    }

    closed spec fn sides_valid(&self) -> bool {
        self.overlay.valid()
    }

    /// The dimension of the vectors.
    pub fn dim(&self) -> (r: usize)
        ensures
            r == self.width(),
    {
        self.core.dim
    }

    /// Each point has one row, deleted rows are rows, and the graph is one of the rows.
    pub closed spec fn valid(&self) -> bool {
        &&& self.sides_valid()
        &&& self.store().valid()
        &&& self.store().rows().len() <= u32::MAX
        &&& indexed(self.store().rows(), self.index())
        &&& dead_within(self.dead(), self.store().rows().len())
        &&& match self.graph() {
            None => true,
            Some(g) => g.fits(self.store()),
        }
    }

    /// What validity says to others.
    pub proof fn lemma_valid(&self)
        requires
            self.valid(),
        ensures
            self.store().valid(),
            self.rows().len() == self.store().ids@.len(),
            self.rows().len() <= u32::MAX,
            indexed(self.rows(), self.index()),
            dead_within(self.dead(), self.rows().len()),
            self.graph() is Some ==> self.graph()->0.fits(self.store()),
    {
        let rows = self.rows();
        let plain = self.store().rows();
        assert forall|i: int| 0 <= i < rows.len() implies (#[trigger] rows[i]).id == plain[i].id by {}
        assert forall|i: int| 0 <= i < rows.len() implies self.index().contains_key(
            (#[trigger] rows[i]).id,
        ) && self.index()[rows[i].id] == i by {
            assert(self.index().contains_key(plain[i].id));
        }
    }

    /// The segment that holds the rows of a mutable segment, as its files keep them.
    pub fn freeze(seg_id: u64, m: &MutableSegment) -> (r: Self)
        requires
            m.valid(),
        ensures
            r.valid(),
            r.number() == seg_id,
            r.rows() == settled_rows(m.rows()),
            r.store().rows() == settled_rows(m.rows()),
            r.store().vectors@ == m.store().vectors@,
            r.store().norms@ == m.store().norms@,
            r.width() == m.width(),
            r.index() == m.index(),
            r.dead() == m.dead(),
            r.over() == Map::<IdView, Option<JsonView>>::empty(),
            r.graph() is None,
            r.live() == settled_live(m.live()),
    {
        proof {
            m.lemma_valid();
        }
        let mut core = m.data().copy();
        let n: usize = core.len();
        let mut ext2int: IdMap<u32> = IdMap::new();
        let mut deleted = empty_bitmap();
        let mut i: usize = 0;
        let ghost core0 = core;
        while i < n
            invariant
                i <= n,
                n == core.ids@.len(),
                n <= u32::MAX,
                m.valid(),
                indexed(m.rows(), m.index()),
                core0.rows() == m.rows(),
                core0.valid(),
                core.dim == core0.dim,
                core.vectors == core0.vectors,
                core.norms == core0.norms,
                core.ids == core0.ids,
                core.payloads@.len() == n,
                forall|k: int|
                    0 <= k < n ==> payload_view(#[trigger] core.payloads@[k]) == (if k < i {
                        settled(payload_view(core0.payloads@[k]))
                    } else {
                        payload_view(core0.payloads@[k])
                    }),
                forall|id: IdView|
                    ext2int@.contains_key(id) <==> (m.index().contains_key(id) && m.index()[id]
                        < i),
                forall|id: IdView| #[trigger] ext2int@.contains_key(id) ==> ext2int@[id]
                    == m.index()[id],
                forall|k: u32| #[trigger] rows_of(deleted).contains(k) <==> m.dead().contains(k) && k < i,
            decreases n - i,
        {
            assert(core0.rows()[i as int].id == core.ids@[i as int]@);
            assert(m.rows()[i as int].id == core.ids@[i as int]@);
            ext2int.insert(&core.ids[i], i as u32);
            if m.is_deleted(i as u32) {
                bitmap_insert(&mut deleted, i as u32);
            }
            let null: bool = match &core.payloads[i] {
                Some(v) => v.is_null(),
                None => false,
            };
            if null {
                core.payloads.set(i, None);
            }
            i = i + 1;
        }
        let r = ImmutableSegment {
            seg_id,
            core,
            ext2int,
            deleted,
            overlay: Overlay::new(),
            ann: None,
        };
        proof {
            assert(r.index() =~= m.index());
            assert(r.dead() =~= m.dead());
            assert(r.store().rows() =~= settled_rows(m.rows())) by {
                assert forall|k: int| 0 <= k < n implies #[trigger] r.store().rows()[k]
                    == settled_rows(m.rows())[k] by {
                    assert(payload_view(r.core.payloads@[k]) == settled(
                        payload_view(core0.payloads@[k]),
                    ));
                    assert(core0.rows()[k] == m.rows()[k]);
                    assert(r.store().row(k) =~= core0.row(k));
                }
            }
            assert(r.rows() =~= settled_rows(m.rows()));
            assert(r.live() =~= settled_live(m.live()));
        }
        r
    }

    /// What the files of a segment hold that keeps the rows of a mutable segment.
    pub fn write_new(seg_id: u64, m: &MutableSegment) -> (r: SegmentParts)
        requires
            m.valid(),
        ensures
            keeps(r, seg_id, *m),
    {
        proof {
            m.lemma_valid();
            lemma_live_len(m.rows(), m.index(), m.dead());
        }
        let data = m.data();
        let mut vectors: Vec<u8> = Vec::new();
        push_u32s(&mut vectors, data.vectors.as_slice());
        let mut norms: Vec<u8> = Vec::new();
        push_u32s(&mut norms, data.norms.as_slice());
        assert(vectors@ =~= le32_all(data.vectors@));
        assert(norms@ =~= le32_all(data.norms@));
        let dels: Option<Vec<u8>> = if bitmap_len(m.deleted()) == 0 {
            None
        } else {
            Some(bitmap_bytes(m.deleted()))
        };
        let mut ids: Vec<ExternalId> = Vec::new();
        let mut payloads: Vec<Json> = Vec::new();
        let mut i: usize = 0;
        while i < data.len()
            invariant
                i <= data.ids@.len(),
                data.valid(),
                data.rows() == m.rows(),
                ids@.len() == i,
                payloads@.len() == i,
                forall|k: int| 0 <= k < i ==> (#[trigger] ids@[k])@ == m.rows()[k].id,
                forall|k: int|
                    0 <= k < i ==> (#[trigger] payloads@[k])@ == payload_line(m.rows()[k].payload),
            decreases data.ids@.len() - i,
        {
            assert(data.rows()[i as int].id == data.ids@[i as int]@);
            ids.push(data.ids[i].clone());
            payloads.push(
                match &data.payloads[i] {
                    Some(v) => v.clone(),
                    None => Json::Null,
                },
            );
            i = i + 1;
        }
        SegmentParts {
            meta: Meta { seg_id, dim: data.dim, count: data.len() },
            vectors,
            norms,
            ids,
            payloads,
            dels,
            overlay: Vec::new(),
            index: None,
        }
    }

    /// The segment that the files in a directory hold. The name of the directory says the
    /// number of the segment.
    pub fn open(dir: &FsPath, parts: SegmentParts) -> (r: Result<Self, Error>)
        ensures
            match dir_number(dir@) {
                None => r == Err::<Self, Error>(Error::Invalid(Invalid::SegmentDirName)),
                Some(n) => match parts_fault(n as u64, parts) {
                    Some(e) => r == Err::<Self, Error>(Error::Invalid(e)),
                    None => r is Ok && r->Ok_0.holds(parts),
                },
            },
    {
        let number = match dir.file_name() {
            None => None,
            Some(name) => segment_number(name),
        };
        match number {
            None => Err(Error::Invalid(Invalid::SegmentDirName)),
            Some(n) => Self::from_parts(n, parts),
        }
    }

    /// The segment that the files in the directory of segment number `dir` hold.
    pub fn from_parts(dir: u64, parts: SegmentParts) -> (r: Result<Self, Error>)
        ensures
            match parts_fault(dir, parts) {
                Some(e) => r == Err::<Self, Error>(Error::Invalid(e)),
                None => r is Ok && r->Ok_0.holds(parts),
            },
    {
        let meta = parts.meta;
        if meta.seg_id != dir {
            return Err(Error::Invalid(Invalid::SegmentIdMismatch { dir, meta: meta.seg_id }));
        }
        if parts.vectors.len() % 4 != 0 {
            return Err(Error::Invalid(Invalid::VectorsUnaligned));
        }
        let vectors = parse_table(parts.vectors.as_slice());
        if !is_product(vectors.len(), meta.count, meta.dim) {
            return Err(
                Error::Invalid(
                    Invalid::VectorsSize {
                        got: vectors.len(),
                        count: meta.count,
                        dim: meta.dim,
                    },
                ),
            );
        }
        let norms = parse_table(parts.norms.as_slice());
        if norms.len() != meta.count {
            return Err(Error::Invalid(Invalid::NormsSize));
        }
        if parts.ids.len() != meta.count || parts.payloads.len() != meta.count {
            return Err(Error::Invalid(Invalid::LinesCount));
        }
        let payloads = line_payloads(&parts.payloads);
        let deleted = match &parts.dels {
            None => empty_bitmap(),
            Some(bytes) => match bitmap_from_bytes(bytes.as_slice()) {
                None => {
                    return Err(Error::Invalid(Invalid::Tombstones));
                },
                Some(b) => b,
            },
        };
        let mut overlay = Overlay::new();
        overlay_all(&mut overlay, parts.overlay.as_slice());
        let ann = match &parts.index {
            None => None,
            Some(bytes) => match HnswIndex::load(bytes.as_slice(), meta.count) {
                Ok(g) => Some(g),
                Err(e) => {
                    return Err(e);
                },
            },
        };
        let ext2int = map_ids(&parts.ids);
        let core = SegmentCore { dim: meta.dim, vectors, norms, ids: parts.ids, payloads };
        let r = ImmutableSegment { seg_id: dir, core, ext2int, deleted, overlay, ann };
        proof {
            assert(r.store().rows() =~= stored_rows(parts));
        }
        Ok(r)
    }

    /// Whether the segment holds what some files say.
    pub open spec fn holds(&self, parts: SegmentParts) -> bool {
        &&& self.number() == parts.meta.seg_id
        &&& self.opened()
        &&& self.store().dim == parts.meta.dim
        &&& self.store().rows() == stored_rows(parts)
        &&& self.index() == last_places(parts.ids@)
        &&& self.dead() == stored_dead(parts)
        &&& self.over() == overlaid(Map::empty(), parts.overlay@)
        &&& match parts.index {
            None => self.graph() is None,
            Some(bytes) => self.graph() is Some && image_of(self.graph()->0) == read_image(
                bytes@,
                parts.meta.count,
            )->Ok_0 && self.graph()->0.graph.m <= u32::MAX && self.graph()->0.graph.m0
                <= u32::MAX,
        }
    }

    /// What makes a segment valid that holds what some files say.
    pub proof fn lemma_holds_valid(&self, parts: SegmentParts)
        requires
            self.holds(parts),
            self.store().rows().len() <= u32::MAX,
            indexed(self.store().rows(), self.index()),
            dead_within(self.dead(), self.store().rows().len()),
            self.graph() is Some ==> self.graph()->0.fits(self.store()),
        ensures
            self.valid(),
    {
    }

    /// The columns of the segment have one entry for each row, and each identifier
    /// leads to the row where it stands last.
    pub closed spec fn opened(&self) -> bool {
        &&& self.sides_valid()
        &&& self.store().valid()
        &&& self.index() == last_places(self.store().ids@)
    }

    /// Whether an opened segment is valid: no two rows have the same identifier, deleted
    /// rows are rows, and the graph can be searched.
    pub fn is_valid(&self) -> (r: bool)
        requires
            self.opened(),
        ensures
            r == self.valid(),
    {
        let n: usize = self.core.len();
        if n > u32::MAX as usize {
            return false;
        }
        let mut i: usize = 0;
        let mut marked: u64 = 0;
        let ghost rows = self.store().rows();
        while i < n
            invariant
                i <= n,
                n == self.core.ids@.len(),
                n <= u32::MAX,
                rows == self.store().rows(),
                forall|k: int|
                    0 <= k < i ==> self.index().contains_key((#[trigger] rows[k]).id)
                        && self.index()[rows[k].id] == k,
                marked <= i,
                marked == below_count(self.dead(), i as nat),
            decreases n - i,
        {
            assert(rows[i as int].id == self.core.ids@[i as int]@);
            match self.ext2int.get(&self.core.ids[i]) {
                Some(at) => {
                    if at as usize != i {
                        return false;
                    }
                },
                None => {
                    return false;
                },
            }
            if bitmap_contains(&self.deleted, i as u32) {
                marked = marked + 1;
            }
            i = i + 1;
        }
        proof {
            lemma_below_count(self.dead(), n as nat);
        }
        if marked != bitmap_len(&self.deleted) {
            return false;
        }
        proof {
            lemma_last_places(self.core.ids@);
            assert(indexed(rows, self.index())) by {
                assert forall|id: IdView| #[trigger] self.index().contains_key(id) implies self.index()[id]
                    < rows.len() && rows[self.index()[id] as int].id == id by {}
            }
        }
        match &self.ann {
            None => true,
            Some(g) => g.graph.is_valid() && g.graph.count as usize == n,
        }
    }
}

impl ImmutableSegment {
    /// The row of a point that is alive.
    pub fn alive_index(&self, id: &ExternalId) -> (r: Option<u32>)
        requires
            self.valid(),
        ensures
            r == (if self.live().contains_key(id@) {
                Some(self.index()[id@])
            } else {
                None
            }),
    {
        match self.ext2int.get(id) {
            Some(idx) => if bitmap_contains(&self.deleted, idx) {
                None
            } else {
                Some(idx)
            },
            None => None,
        }
    }

    /// Marks rows as deleted. Says whether there were any to mark, so that the marks
    /// have to be stored.
    pub fn tombstone_many(&mut self, idxs: &[u32]) -> (r: bool)
        requires
            old(self).valid(),
            forall|i: int| 0 <= i < idxs@.len() ==> #[trigger] idxs@[i] < old(self).rows().len(),
        ensures
            final(self).valid(),
            final(self).number() == old(self).number(),
            final(self).store() == old(self).store(),
            final(self).over() == old(self).over(),
            final(self).index() == old(self).index(),
            final(self).graph() == old(self).graph(),
            final(self).dead() == old(self).dead().union(idxs@.to_set()),
            r == (idxs@.len() > 0),
    {
        let mut i: usize = 0;
        while i < idxs.len()
            invariant
                i <= idxs@.len(),
                forall|i: int|
                    0 <= i < idxs@.len() ==> #[trigger] idxs@[i] < old(self).store().rows().len(),
                self.number() == old(self).number(),
                self.store() == old(self).store(),
                self.over() == old(self).over(),
                self.index() == old(self).index(),
                self.graph() == old(self).graph(),
                self.overlay == old(self).overlay,
                old(self).valid(),
                dead_within(self.dead(), self.store().rows().len()),
                self.dead() == old(self).dead().union(idxs@.take(i as int).to_set()),
            decreases idxs.len() - i,
        {
            bitmap_insert(&mut self.deleted, idxs[i]);
            proof {
                let before = idxs@.take(i as int);
                let after = idxs@.take(i + 1);
                assert(after =~= before.push(idxs@[i as int]));
                before.lemma_push_to_set_commute(idxs@[i as int]);
                assert(self.dead() =~= old(self).dead().union(after.to_set()));
            }
            i = i + 1;
        }
        assert(idxs@.take(idxs@.len() as int) =~= idxs@);
        idxs.len() > 0
    }

    /// Lays new payloads over. Says whether there were any, so that they have to be
    /// stored.
    pub fn set_overlay_batch(&mut self, entries: &[(ExternalId, Option<Json>)]) -> (r: bool)
        requires
            old(self).valid(),
        ensures
            final(self).valid(),
            final(self).number() == old(self).number(),
            final(self).store() == old(self).store(),
            final(self).over() == overlaid(old(self).over(), entries@),
            final(self).index() == old(self).index(),
            final(self).graph() == old(self).graph(),
            final(self).dead() == old(self).dead(),
            r == (entries@.len() > 0),
    {
        overlay_all(&mut self.overlay, entries);
        entries.len() > 0
    }

    /// The bytes of the marks of deleted rows.
    pub fn tombstone_bytes(&self) -> (r: Vec<u8>)
        ensures
            decoded_rows(r@) is Some,
            decoded_rows(r@)->0.to_set() == self.dead(),
    {
        bitmap_bytes(&self.deleted)
    }

    /// The new payloads.
    pub fn overlay_entries(&self) -> (r: &Vec<(ExternalId, Option<Json>)>)
        requires
            self.valid(),
        ensures
            overlaid(Map::empty(), r@) == self.over(),
    {
        self.overlay.entries()
    }

    /// The payload of a row.
    pub fn payload_of(&self, i: usize) -> (r: Option<Json>)
        requires
            self.valid(),
            i < self.rows().len(),
        ensures
            payload_view(r) == self.rows()[i as int].payload,
    {
        assert(self.core.rows()[i as int].id == self.core.ids@[i as int]@);
        match self.overlay.get(&self.core.ids[i]) {
            Some(p) => copy_payload(p),
            None => copy_payload(&self.core.payloads[i]),
        }
    }

    /// The point of a row.
    pub fn point(&self, idx: u32) -> (r: Point)
        requires
            self.valid(),
            idx < self.rows().len(),
        ensures
            r.id@ == self.rows()[idx as int].id,
            r.entry() == self.rows()[idx as int].entry(),
            r.vector@.len() == self.width(),
    {
        proof {
            lemma_row_within(idx as int, self.core.ids@.len() as int, self.core.dim as int);
        }
        Point {
            id: self.core.ids[idx as usize].clone(),
            vector: copy_vector(self.core.vector(idx)),
            payload: self.payload_of(idx as usize),
        }
    }

    /// Whether a row is alive.
    pub fn is_alive(&self, idx: u32) -> (r: bool)
        ensures
            r == !self.dead().contains(idx),
    {
        !bitmap_contains(&self.deleted, idx)
    }

    /// The number of rows, the deleted ones included.
    pub fn total(&self) -> (r: usize)
        ensures
            r == self.rows().len(),
    {
        self.core.len()
    }

    /// The number of points that are alive.
    pub fn alive(&self) -> (r: u64)
        requires
            self.valid(),
        ensures
            r == self.live().len(),
            self.live().dom().finite(),
    {
        proof {
            self.lemma_valid();
            lemma_live_len(self.rows(), self.index(), self.dead());
        }
        self.core.len() as u64 - bitmap_len(&self.deleted)
    }

    /// Whether more than three in ten rows are deleted, so that the segment is worth
    /// rebuilding.
    pub fn is_worn(&self) -> (r: bool)
        requires
            self.valid(),
        ensures
            r == self.worn(),
    {
        proof {
            self.lemma_valid();
            lemma_live_len(self.rows(), self.index(), self.dead());
        }
        let dead: u64 = bitmap_len(&self.deleted);
        dead * 10 > self.core.len() as u64 * 3
    }

    /// Whether more than three in ten rows are deleted.
    pub open spec fn worn(&self) -> bool {
        self.dead().len() * 10 > self.rows().len() * 3
    }

    /// The rows.
    pub fn data(&self) -> (r: &SegmentCore)
        ensures
            *r == self.store(),
    {
        &self.core
    }

    /// The graph index.
    pub fn ann(&self) -> (r: &Option<HnswIndex>)
        ensures
            *r == self.graph(),
    {
        &self.ann
    }

    /// Gives the segment a graph index.
    pub fn install_index(&mut self, index: HnswIndex)
        requires
            old(self).valid(),
            index.fits(old(self).store()),
        ensures
            final(self).valid(),
            final(self).number() == old(self).number(),
            final(self).store() == old(self).store(),
            final(self).over() == old(self).over(),
            final(self).index() == old(self).index(),
            final(self).dead() == old(self).dead(),
            final(self).graph() == Some(index),
    {
        self.ann = Some(index);
    }

    /// Whether a search of the segment may give `out`: what the graph index answers
    /// where there is one, else the best of all rows.
    pub open spec fn may_find<N, S>(
        &self,
        metric: Metric,
        kernel: Kernel<N, S>,
        query: Seq<u32>,
        k: nat,
        pass: spec_fn(u32) -> bool,
        out: Seq<(u32, u32)>,
    ) -> bool where N: Fn(&[u32]) -> u32, S: Fn(Metric, &[u32], u32, &[u32], u32) -> u32 {
        match self.graph() {
            Some(g) => out == answer(g, self.store(), metric, kernel, query, k, pass),
            None => exact(self.store(), metric, kernel, query, k, pass, out),
        }
    }

    /// What a search of the segment may give are rows that pass the filter, with their
    /// scores, in order.
    pub proof fn law_search_presents<N, S>(
        &self,
        metric: Metric,
        kernel: Kernel<N, S>,
        query: Seq<u32>,
        k: nat,
        pass: spec_fn(u32) -> bool,
        out: Seq<(u32, u32)>,
    ) where N: Fn(&[u32]) -> u32, S: Fn(Metric, &[u32], u32, &[u32], u32) -> u32
        requires
            self.valid(),
            self.may_find(metric, kernel, query, k, pass, out),
        ensures
            presents(
                row_scores(
                    kernel,
                    metric,
                    self.store().vectors@,
                    self.store().norms@,
                    self.store().dim as int,
                    query,
                ),
                pass,
                metric,
                k,
                self.rows().len(),
                out,
            ),
    {
        match self.graph() {
            Some(g) => law_answers_present(g, self.store(), metric, kernel, query, k, pass),
            None => law_exact_store(self.store(), metric, kernel, query, k, pass, out),
        }
    }

    /// The nearest rows that pass the filter, best first: at most `k` of them, each
    /// with its score.
    pub fn search<N, S, P>(
        &self,
        metric: Metric,
        kernel: &Kernel<N, S>,
        query: &[u32],
        k: usize,
        pass: &Option<P>,
    ) -> (out: Vec<(u32, u32)>) where
        N: Fn(&[u32]) -> u32,
        S: Fn(Metric, &[u32], u32, &[u32], u32) -> u32,
        P: RowFilter,

        requires
            self.valid(),
            kernel.valid(),
            filter_valid(*pass),
        ensures
            self.may_find(metric, *kernel, query@, k as nat, admitted(*pass), out@),
    {
        match &self.ann {
            Some(g) => g.search(&self.core, metric, kernel, query, k, pass),
            None => {
                let flat = FlatIndex::new(&self.core, metric);
                flat.search(kernel, query, k, pass)
            },
        }
    }
}

/// Whether the exact search of some rows gives `out`.
pub open spec fn exact<N, S>(
    data: SegmentCore,
    metric: Metric,
    kernel: Kernel<N, S>,
    query: Seq<u32>,
    k: nat,
    pass: spec_fn(u32) -> bool,
    out: Seq<(u32, u32)>,
) -> bool where N: Fn(&[u32]) -> u32, S: Fn(Metric, &[u32], u32, &[u32], u32) -> u32 {
    if data.dim == 0 || k == 0 {
        out.len() == 0
    } else {
        out == with_scores(
            metric,
            kept_of(
                row_scores(kernel, metric, data.vectors@, data.norms@, data.dim as int, query),
                pass,
                metric,
                k,
                data.norms@.len(),
            ),
        )
    }
}

/// What the exact search of some rows gives are rows that pass the filter, with their
/// scores, in order.
pub proof fn law_exact_store<N, S>(
    data: SegmentCore,
    metric: Metric,
    kernel: Kernel<N, S>,
    query: Seq<u32>,
    k: nat,
    pass: spec_fn(u32) -> bool,
    out: Seq<(u32, u32)>,
) where N: Fn(&[u32]) -> u32, S: Fn(Metric, &[u32], u32, &[u32], u32) -> u32
    requires
        data.valid(),
        data.ids@.len() <= u32::MAX,
        exact(data, metric, kernel, query, k, pass, out),
    ensures
        presents(
            row_scores(kernel, metric, data.vectors@, data.norms@, data.dim as int, query),
            pass,
            metric,
            k,
            data.ids@.len(),
            out,
        ),
{
    if !(data.dim == 0 || k == 0) {
        law_exact_presents(
            row_scores(kernel, metric, data.vectors@, data.norms@, data.dim as int, query),
            pass,
            metric,
            k,
            data.norms@.len(),
        );
    }
}

/// How many of some row numbers are below `n`.
pub open spec fn below_count(rows: Set<u32>, n: nat) -> nat
    decreases n,
{
    if n == 0 {
        0
    } else {
        below_count(rows, (n - 1) as nat) + (if rows.contains((n - 1) as u32) {
            1nat
        } else {
            0nat
        })
    }
}

/// As many of some row numbers are below `n` as there are of them, just when all are.
pub proof fn lemma_below_count(rows: Set<u32>, n: nat)
    requires
        n <= u32::MAX,
    ensures
        rows.finite(),
        below_count(rows, n) == rows.len() <==> dead_within(rows, n),
{
    let all = Set::<u32>::full();
    assert(all.finite()) by {
        broadcast use vstd::set_lib::full_set_properties;
    }
    vstd::set_lib::lemma_set_subset_finite(all, rows);
    let low = rows.filter(|i: u32| i < n);
    lemma_below_filter(rows, n);
    rows.lemma_len_filter(|i: u32| i < n);
    if below_count(rows, n) == rows.len() {
        vstd::set_lib::lemma_subset_equality(low, rows);
        assert forall|i: u32| #[trigger] rows.contains(i) implies i < n by {
            assert(low.contains(i));
        }
    }
    if dead_within(rows, n) {
        assert(low =~= rows);
    }
}

proof fn lemma_below_filter(rows: Set<u32>, n: nat)
    requires
        n <= u32::MAX,
        rows.finite(),
    ensures
        rows.filter(|i: u32| i < n).len() == below_count(rows, n),
        rows.filter(|i: u32| i < n).finite(),
    decreases n,
{
    let low = rows.filter(|i: u32| i < n);
    rows.lemma_len_filter(|i: u32| i < n);
    if n == 0 {
        assert(low =~= Set::<u32>::empty());
    } else {
        let last = (n - 1) as u32;
        lemma_below_filter(rows, (n - 1) as nat);
        let lower = rows.filter(|i: u32| i < n - 1);
        if rows.contains(last) {
            assert(low =~= lower.insert(last));
        } else {
            assert(low =~= lower);
        }
    }
}

/// Each identifier leads to a row where it stands.
pub proof fn lemma_last_places(ids: Seq<ExternalId>)
    requires
        ids.len() <= u32::MAX,
    ensures
        forall|id: IdView| #[trigger]
            last_places(ids).contains_key(id) ==> last_places(ids)[id] < ids.len()
                && ids[last_places(ids)[id] as int]@ == id,
        forall|i: int|
            0 <= i < ids.len() ==> last_places(ids).contains_key((#[trigger] ids[i])@),
    decreases ids.len(),
{
    if ids.len() > 0 {
        let rest = ids.drop_last();
        lemma_last_places(rest);
        assert forall|id: IdView| #[trigger] last_places(ids).contains_key(id) implies last_places(
            ids,
        )[id] < ids.len() && ids[last_places(ids)[id] as int]@ == id by {
            if id != ids.last()@ {
                assert(last_places(rest).contains_key(id));
            }
        }
        assert forall|i: int| 0 <= i < ids.len() implies last_places(ids).contains_key(
            (#[trigger] ids[i])@,
        ) by {
            if i < rest.len() {
                assert(rest[i] == ids[i]);
            }
        }
    }
}

/// Where identifiers are distinct, each leads to its row.
pub proof fn lemma_distinct_places(ids: Seq<ExternalId>, i: int)
    requires
        ids.len() <= u32::MAX,
        forall|a: int, b: int|
            0 <= a < b < ids.len() ==> (#[trigger] ids[a])@ != (#[trigger] ids[b])@,
        0 <= i < ids.len(),
    ensures
        last_places(ids).contains_key(ids[i]@),
        last_places(ids)[ids[i]@] == i,
{
    lemma_last_places(ids);
    let j = last_places(ids)[ids[i]@] as int;
    if j < i {
        assert(ids[j]@ != ids[i]@);
    } else if i < j {
        assert(ids[i]@ != ids[j]@);
    }
}

/// The integers in a byte string.
fn parse_table(bytes: &[u8]) -> (r: Vec<u32>)
    ensures
        r@ == u32s_at(bytes@, 0, bytes@.len() / 4),
{
    let len: usize = bytes.len();
    let n: usize = len / 4;
    let mut r: Vec<u32> = Vec::new();
    let mut i: usize = 0;
    while i < n
        invariant
            i <= n,
            len == bytes@.len(),
            n == len / 4,
            r@ == u32s_at(bytes@, 0, i as nat),
        decreases n - i,
    {
        let p: usize = 4 * i;
        let x: u32 = bytes[p] as u32 + 256 * bytes[p + 1] as u32 + 65536 * bytes[p + 2] as u32
            + 16777216 * bytes[p + 3] as u32;
        r.push(x);
        assert(r@ =~= u32s_at(bytes@, 0, (i + 1) as nat));
        i = i + 1;
    }
    r
}

/// Whether a number is the product of two others.
fn is_product(n: usize, a: usize, b: usize) -> (r: bool)
    ensures
        r == (n == a * b),
{
    proof {
        assert(0 <= a * b <= 0xFFFF_FFFF_FFFF_FFFF * 0xFFFF_FFFF_FFFF_FFFF) by (nonlinear_arith)
            requires
                0 <= a <= 0xFFFF_FFFF_FFFF_FFFF,
                0 <= b <= 0xFFFF_FFFF_FFFF_FFFF,
        ;
    }
    a as u128 * b as u128 == n as u128
}

/// The payloads that lines stand for.
fn line_payloads(lines: &Vec<Json>) -> (r: Vec<Option<Json>>)
    ensures
        r@.len() == lines@.len(),
        forall|i: int|
            0 <= i < lines@.len() ==> payload_view(#[trigger] r@[i]) == line_payload(lines@[i]),
{
    let mut r: Vec<Option<Json>> = Vec::new();
    let mut i: usize = 0;
    while i < lines.len()
        invariant
            i <= lines@.len(),
            r@.len() == i,
            forall|k: int|
                0 <= k < i ==> payload_view(#[trigger] r@[k]) == line_payload(lines@[k]),
        decreases lines.len() - i,
    {
        if lines[i].is_null() {
            r.push(None);
        } else {
            r.push(Some(lines[i].clone()));
        }
        i = i + 1;
    }
    r
}

/// Lays new payloads over, one after the other.
fn overlay_all(overlay: &mut Overlay, entries: &[(ExternalId, Option<Json>)])
    requires
        old(overlay).valid(),
    ensures
        final(overlay).valid(),
        final(overlay)@ == overlaid(old(overlay)@, entries@),
{
    let mut i: usize = 0;
    while i < entries.len()
        invariant
            i <= entries@.len(),
            overlay.valid(),
            overlay@ == overlaid(old(overlay)@, entries@.take(i as int)),
        decreases entries.len() - i,
    {
        overlay.insert(&entries[i].0, &entries[i].1);
        assert(entries@.take(i + 1).drop_last() =~= entries@.take(i as int));
        i = i + 1;
    }
    assert(entries@.take(entries@.len() as int) =~= entries@);
}

/// Where each identifier stands last.
fn map_ids(ids: &Vec<ExternalId>) -> (r: IdMap<u32>)
    ensures
        r@ == last_places(ids@),
{
    let mut r: IdMap<u32> = IdMap::new();
    let mut i: usize = 0;
    while i < ids.len()
        invariant
            i <= ids@.len(),
            r@ == last_places(ids@.take(i as int)),
        decreases ids.len() - i,
    {
        r.insert(
            &ids[i],
            #[verifier::truncate]
            (i as u32),
        );
        assert(ids@.take(i + 1).drop_last() =~= ids@.take(i as int));
        i = i + 1;
    }
    assert(ids@.take(ids@.len() as int) =~= ids@);
    r
}

/// The files of a segment are accepted exactly if they are in the directory of its number, have a
/// component for each dimension of each row, and a norm, an identifier and a payload for each row, and
/// if the marks of deleted rows and the index can be read, if there are any.
pub proof fn law_accepted_files(dir: u64, parts: SegmentParts)
    ensures
        parts_fault(dir, parts) is None <==> {
            let n = parts.meta.count;
            &&& parts.meta.seg_id == dir
            &&& parts.vectors@.len() == 4 * (n * parts.meta.dim)
            &&& 4 * n <= parts.norms@.len() < 4 * n + 4
            &&& parts.ids@.len() == n
            &&& parts.payloads@.len() == n
            &&& parts.dels is Some ==> decoded_rows(parts.dels->0@) is Some
            &&& parts.index is Some ==> read_image(parts.index->0@, n) is Ok
        },
{
}

} // verus!
