//! What is stored, and what opening a database makes of it.
//!
//! A crash may come after any of the steps that store something. The laws here say that
//! whatever was stored by then, opening the database gives back what was kept.

use vstd::prelude::*;

use crate::bitmap::decoded_rows;
use crate::engine::database::Step;
use crate::engine::outcome::{
    agree, all_fit, in_list, outcome, put_points, replayed, settled_kept, subject, writes, Kept,
};
use crate::engine::view::layered;
use crate::error::Invalid;
use crate::id::IdView;
use crate::index::hnsw::image::{image_of, read_image, IndexImage};
use crate::index::hnsw::HnswIndex;
use crate::json::JsonView;
use crate::manifest::{entry_at, ManifestView};
use crate::segment::immutable::{
    all_covered, covered, keeps, last_places, lemma_kept_parts, marks_fit, repaid, settled,
    settled_entry, settled_live, settled_rows, sides_fit, stored_dead, stored_rows,
    ImmutableSegment, Meta, SegmentParts,
};
use crate::segment::mutable::MutableSegment;
use crate::segment::overlay::overlaid;
use crate::segment::{live_of, Entry, Row};
use crate::storage::bytes_if_any;
use crate::wal::{OpView, RecordView};

verus! {

/// What the files of a segment say.
#[verifier::ext_equal]
pub struct StoredSegment {
    /// The rows.
    pub rows: Seq<Row>,
    /// The number of the row of each identifier.
    pub index: Map<IdView, u32>,
    /// The numbers of the deleted rows.
    pub dead: Set<u32>,
    /// The new payloads.
    pub over: Map<IdView, Option<JsonView>>,
    /// The description.
    pub meta: Meta,
    /// Whether there is an entry for each row.
    pub whole: bool,
    /// Whether the marks of deleted rows can be read.
    pub marked: bool,
    /// The bytes of the graph index.
    pub ann: Option<Seq<u8>>,
}

impl StoredSegment {
    /// The points that are alive.
    pub open spec fn live(self) -> Map<IdView, Entry> {
        live_of(all_covered(self.rows, self.over), self.index, self.dead)
    }
}

/// New payloads as files keep them.
pub open spec fn settled_over(over: Map<IdView, Option<JsonView>>) -> Map<
    IdView,
    Option<JsonView>,
> {
    Map::new(|id: IdView| over.contains_key(id), |id: IdView| settled(over[id]))
}

/// What new files of a segment say.
pub open spec fn new_files(parts: SegmentParts) -> StoredSegment {
    StoredSegment {
        rows: stored_rows(parts),
        index: last_places(parts.ids@),
        dead: stored_dead(parts),
        over: settled_over(overlaid(Map::empty(), parts.overlay@)),
        meta: parts.meta,
        whole: sides_fit(parts),
        marked: marks_fit(parts),
        ann: bytes_if_any(parts.index),
    }
}

/// What is stored.
#[verifier::ext_equal]
pub struct Disk {
    /// The manifest.
    pub manifest: ManifestView,
    /// The records of the log.
    pub log: Seq<RecordView>,
    /// The segments.
    pub segs: Map<u64, StoredSegment>,
}

/// The points of some segments: where several have a point, that of the last.
pub open spec fn stacked(segs: Map<u64, StoredSegment>, ids: Seq<u64>) -> Map<IdView, Entry>
    decreases ids.len(),
{
    if ids.len() == 0 {
        Map::empty()
    } else {
        stacked(segs, ids.drop_last()).union_prefer_right(segs[ids.last()].live())
    }
}

impl Disk {
    /// What is stored once a step was performed.
    pub open spec fn performed(self, step: Step) -> Disk {
        match step {
            Step::WriteSegment(parts) => Disk {
                segs: self.segs.insert(parts.meta.seg_id, new_files(parts)),
                ..self
            },
            Step::WriteIndex(id, bytes) => if self.segs.contains_key(id) {
                Disk {
                    segs: self.segs.insert(
                        id,
                        StoredSegment { ann: Some(bytes@), ..self.segs[id] },
                    ),
                    ..self
                }
            } else {
                self
            },
            Step::WriteTombstones(id, bytes) => Disk {
                segs: self.segs.insert(
                    id,
                    StoredSegment {
                        dead: decoded_rows(bytes@)->0.to_set(),
                        marked: decoded_rows(bytes@) is Some,
                        ..self.segs[id]
                    },
                ),
                ..self
            },
            Step::WriteOverlay(id, entries) => Disk {
                segs: self.segs.insert(
                    id,
                    StoredSegment {
                        over: settled_over(overlaid(Map::empty(), entries@)),
                        ..self.segs[id]
                    },
                ),
                ..self
            },
            Step::SaveManifest(m) => Disk { manifest: m@, ..self },
            Step::ResetLog => Disk { log: Seq::empty(), ..self },
            Step::RemoveSegment(id) => Disk { segs: self.segs.remove(id), ..self },
        }
    }

    /// What is stored once some steps were performed, one after the other.
    pub open spec fn performed_all(self, steps: Seq<Step>) -> Disk
        decreases steps.len(),
    {
        if steps.len() == 0 {
            self
        } else {
            self.performed_all(steps.drop_last()).performed(steps.last())
        }
    }

    /// What is stored once a record was appended to the log.
    pub open spec fn appended(self, rec: RecordView) -> Disk {
        Disk { log: self.log.push(rec), ..self }
    }

    /// What the segments hold under a name.
    pub open spec fn base(self, name: Seq<char>) -> Option<Kept> {
        let at = entry_at(self.manifest.entries, name);
        if at < self.manifest.entries.len() {
            let entry = self.manifest.entries[at];
            Some(Kept { config: entry.config, points: stacked(self.segs, entry.segments) })
        } else {
            None
        }
    }

    /// What opening the database gives back under a name: what the segments hold, and what
    /// the records of the log do to it.
    pub open spec fn recovered(self, name: Seq<char>) -> Option<Kept> {
        replayed(self.base(name), self.log, self.manifest.last_flushed_lsn, name)
    }
}

/// Steps may be performed part by part.
pub proof fn lemma_performed_parts(disk: Disk, steps: Seq<Step>, n: int)
    requires
        0 <= n <= steps.len(),
    ensures
        disk.performed_all(steps) == disk.performed_all(steps.take(n)).performed_all(
            steps.skip(n),
        ),
    decreases steps.len(),
{
    if n == steps.len() {
        assert(steps.take(n) =~= steps);
        assert(steps.skip(n) =~= Seq::<Step>::empty());
    } else {
        lemma_performed_parts(disk, steps.drop_last(), n);
        assert(steps.drop_last().take(n) =~= steps.take(n));
        assert(steps.skip(n).drop_last() =~= steps.drop_last().skip(n));
        assert(steps.skip(n).last() == steps.last());
    }
}

/// Whether what is stored of a segment is what it is in memory.
pub open spec fn on_disk(v: StoredSegment, seg: ImmutableSegment) -> bool {
    &&& v.rows == seg.store().rows()
    &&& v.index == seg.index()
    &&& v.dead == seg.dead()
    &&& v.over == settled_over(seg.over())
    &&& v.meta.seg_id == seg.number()
    &&& v.meta.dim == seg.store().dim
    &&& v.meta.count == v.rows.len()
    &&& v.whole
    &&& v.marked
    &&& match seg.graph() {
        None => v.ann is None,
        Some(g) => v.ann is Some && (saves(g) ==> read_image(v.ann->0, v.meta.count) == Ok::<
            IndexImage,
            Invalid,
        >(image_of(g))),
    }
}

/// Whether the file of an index has a place for all its numbers.
pub open spec fn saves(g: HnswIndex) -> bool {
    g.graph.m <= 0xFFFF && g.graph.m0 <= u32::MAX
}

/// A segment that is stored as it is in memory holds the same points.
pub proof fn lemma_on_disk(v: StoredSegment, seg: ImmutableSegment)
    requires
        seg.valid(),
        on_disk(v, seg),
    ensures
        settled_live(v.live()) == settled_live(seg.live()),
        forall|id: IdView| #[trigger] agree(v.live(), seg.live(), id),
{
    seg.lemma_valid();
    assert forall|id: IdView| #[trigger] agree(v.live(), seg.live(), id) by {
        if seg.live().contains_key(id) {
            let i = seg.index()[id] as int;
            assert(seg.rows()[i].id == id);
            assert(seg.rows()[i] == covered(seg.store().rows()[i], seg.over()));
            assert(all_covered(v.rows, v.over)[i] == covered(v.rows[i], v.over));
        }
    }
    assert(settled_live(v.live()) =~= settled_live(seg.live())) by {
        assert forall|id: IdView| #[trigger] settled_live(v.live()).contains_key(id)
            <==> settled_live(seg.live()).contains_key(id) by {
            assert(agree(v.live(), seg.live(), id));
        }
        assert forall|id: IdView| #[trigger] settled_live(v.live()).contains_key(
            id,
        ) implies settled_live(v.live())[id] == settled_live(seg.live())[id] by {
            assert(agree(v.live(), seg.live(), id));
        }
    }
}

/// New files hold the points that they keep.
pub proof fn lemma_new_files(seg_id: u64, m: MutableSegment, parts: SegmentParts)
    requires
        m.valid(),
        keeps(parts, seg_id, m),
    ensures
        new_files(parts).rows == settled_rows(m.rows()),
        new_files(parts).index == m.index(),
        new_files(parts).dead == m.dead(),
        new_files(parts).over == Map::<IdView, Option<JsonView>>::empty(),
        new_files(parts).live() == settled_live(m.live()),
        new_files(parts).meta == (Meta {
            seg_id,
            dim: m.store().dim,
            count: m.rows().len() as usize,
        }),
        new_files(parts).whole,
        new_files(parts).marked,
        new_files(parts).ann is None,
{
    m.lemma_valid();
    lemma_kept_parts(seg_id, m, parts);
    let v = new_files(parts);
    assert(v.over =~= Map::<IdView, Option<JsonView>>::empty());
    assert(all_covered(v.rows, v.over) =~= v.rows);
    assert(v.live() =~= settled_live(m.live()));
}

/// Where segments agree on a point, so does what they stack.
pub proof fn lemma_stacked_agree(
    a: Map<u64, StoredSegment>,
    b: Map<u64, StoredSegment>,
    ids: Seq<u64>,
    id: IdView,
)
    requires
        forall|j: int|
            0 <= j < ids.len() ==> agree(
                a[#[trigger] ids[j]].live(),
                b[ids[j]].live(),
                id,
            ),
    ensures
        agree(stacked(a, ids), stacked(b, ids), id),
    decreases ids.len(),
{
    if ids.len() > 0 {
        let rest = ids.drop_last();
        assert forall|j: int| 0 <= j < rest.len() implies agree(
            a[#[trigger] rest[j]].live(),
            b[rest[j]].live(),
            id,
        ) by {
            assert(rest[j] == ids[j]);
        }
        lemma_stacked_agree(a, b, rest, id);
        assert(agree(a[ids[ids.len() - 1]].live(), b[ids[ids.len() - 1]].live(), id));
    }
}

/// Whether two collections agree on a point but for its payload.
pub open spec fn alike(a: Map<IdView, Entry>, b: Map<IdView, Entry>, id: IdView) -> bool {
    (a.contains_key(id) <==> b.contains_key(id)) && (a.contains_key(id) ==> a[id].vector
        == b[id].vector)
}

/// Where segments agree on a point but for its payload, so does what they stack.
pub proof fn lemma_stacked_alike(
    a: Map<u64, StoredSegment>,
    b: Map<u64, StoredSegment>,
    ids: Seq<u64>,
    id: IdView,
)
    requires
        forall|j: int|
            0 <= j < ids.len() ==> alike(
                a[#[trigger] ids[j]].live(),
                b[ids[j]].live(),
                id,
            ),
    ensures
        alike(stacked(a, ids), stacked(b, ids), id),
    decreases ids.len(),
{
    if ids.len() > 0 {
        let rest = ids.drop_last();
        assert forall|j: int| 0 <= j < rest.len() implies alike(
            a[#[trigger] rest[j]].live(),
            b[rest[j]].live(),
            id,
        ) by {
            assert(rest[j] == ids[j]);
        }
        lemma_stacked_alike(a, b, rest, id);
        assert(alike(a[ids[ids.len() - 1]].live(), b[ids[ids.len() - 1]].live(), id));
    }
}

/// Stored segments stack what the segments in memory layer.
pub proof fn lemma_stacked_layered(
    a: Map<u64, StoredSegment>,
    ids: Seq<u64>,
    segs: Seq<ImmutableSegment>,
    id: IdView,
)
    requires
        ids.len() == segs.len(),
        forall|j: int|
            0 <= j < ids.len() ==> agree(a[#[trigger] ids[j]].live(), segs[j].live(), id),
    ensures
        agree(stacked(a, ids), layered(segs), id),
    decreases ids.len(),
{
    if ids.len() > 0 {
        let rest = ids.drop_last();
        assert forall|j: int| 0 <= j < rest.len() implies agree(
            a[#[trigger] rest[j]].live(),
            segs.drop_last()[j].live(),
            id,
        ) by {
            assert(rest[j] == ids[j]);
        }
        lemma_stacked_layered(a, rest, segs.drop_last(), id);
        assert(agree(a[ids[ids.len() - 1]].live(), segs[ids.len() - 1].live(), id));
    }
}

/// Collections that agree on all points are settled alike.
pub proof fn lemma_agree_settled(a: Map<IdView, Entry>, b: Map<IdView, Entry>)
    requires
        forall|id: IdView| #[trigger] agree(a, b, id),
    ensures
        settled_live(a) == settled_live(b),
{
    assert forall|id: IdView| #[trigger] settled_live(a).contains_key(id)
        <==> settled_live(b).contains_key(id) by {
        assert(agree(a, b, id));
    }
    assert forall|id: IdView| #[trigger] settled_live(a).contains_key(
        id,
    ) implies settled_live(a)[id] == settled_live(b)[id] by {
        assert(agree(a, b, id));
    }
    assert(settled_live(a) =~= settled_live(b));
}

/// Collections that are settled alike agree on all points.
pub proof fn lemma_settled_agrees(a: Map<IdView, Entry>, b: Map<IdView, Entry>, id: IdView)
    requires
        settled_live(a) == settled_live(b),
    ensures
        agree(a, b, id),
{
    let x = settled_live(a);
    let y = settled_live(b);
    assert(x.contains_key(id) <==> a.contains_key(id));
    assert(y.contains_key(id) <==> b.contains_key(id));
    if x.contains_key(id) {
        assert(x[id] == settled_entry(a[id]));
        assert(y[id] == settled_entry(b[id]));
    }
}

// ------------------------------------------------------------ records as they are read back

/// An operation as files keep it.
pub open spec fn settled_op(op: OpView) -> OpView {
    match op {
        OpView::Upsert { name, points } => OpView::Upsert { name, points: settled_points(points) },
        OpView::Pay { name, ids, payload } => OpView::Pay { name, ids, payload: settled(payload) },
        _ => op,
    }
}

/// Points as files keep them.
pub open spec fn settled_points(points: Seq<(IdView, Entry)>) -> Seq<(IdView, Entry)> {
    Seq::new(points.len(), |i: int| (points[i].0, settled_entry(points[i].1)))
}

/// Writing points and writing what files keep of them come to the same.
pub proof fn lemma_settled_points(m: Map<IdView, Entry>, points: Seq<(IdView, Entry)>, dim: nat)
    ensures
        all_fit(points, dim) == all_fit(settled_points(points), dim),
        settled_live(put_points(m, points)) == settled_live(put_points(m, settled_points(points))),
        forall|id: IdView| writes(points, id) == #[trigger] writes(settled_points(points), id),
    decreases points.len(),
{
    let other = settled_points(points);
    assert forall|i: int| 0 <= i < points.len() implies (#[trigger] other[i]).1.vector
        == points[i].1.vector && other[i].0 == points[i].0 by {}
    if all_fit(other, dim) {
        assert forall|i: int| 0 <= i < points.len() implies (#[trigger] points[i]).1.vector.len()
            == dim by {
            assert(other[i].1.vector.len() == dim);
        }
    }
    assert forall|id: IdView| writes(points, id) == #[trigger] writes(other, id) by {
        if writes(points, id) {
            let i = choose|i: int| 0 <= i < points.len() && (#[trigger] points[i]).0 == id;
            assert(other[i].0 == id);
        }
        if writes(other, id) {
            let i = choose|i: int| 0 <= i < other.len() && (#[trigger] other[i]).0 == id;
            assert(points[i].0 == id);
        }
    }
    if points.len() > 0 {
        lemma_settled_points(m, points.drop_last(), dim);
        assert(other.drop_last() =~= settled_points(points.drop_last()));
        let a = put_points(m, points.drop_last());
        let b = put_points(m, other.drop_last());
        assert forall|id: IdView| #[trigger] agree(
            put_points(m, points),
            put_points(m, other),
            id,
        ) by {
            lemma_settled_agrees(a, b, id);
        }
        lemma_agree_settled(put_points(m, points), put_points(m, other));
    } else {
        assert(other =~= points);
    }
}

/// An operation and what files keep of it come to the same.
proof fn lemma_settled_op(k: Option<Kept>, op: OpView, name: Seq<char>)
    ensures
        settled_kept(outcome(k, op, name)) == settled_kept(outcome(k, settled_op(op), name)),
{
    if subject(op) == name && k is Some {
        let c = k->0;
        match op {
            OpView::Upsert { points, .. } => {
                lemma_settled_points(c.points, points, c.config.dim as nat);
            },
            OpView::Pay { ids, payload, .. } => {
                let a = repaid(c.points, in_list(ids), payload);
                let b = repaid(c.points, in_list(ids), settled(payload));
                assert forall|id: IdView| #[trigger] agree(a, b, id) by {}
                lemma_agree_settled(a, b);
            },
            _ => {},
        }
    }
}

/// Operations of which files keep the same come to the same.
pub proof fn law_settled_op(k: Option<Kept>, a: OpView, b: OpView, name: Seq<char>)
    requires
        settled_op(a) == settled_op(b),
    ensures
        settled_kept(outcome(k, a, name)) == settled_kept(outcome(k, b, name)),
{
    lemma_settled_op(k, a, name);
    lemma_settled_op(k, b, name);
}

} // verus!
