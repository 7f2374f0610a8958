//! Flushing, compacting and rebuilding.
//!
//! Each is planned first. The plan says what has to be stored, in order. It is carried out
//! in memory once that is done. Numbers of segments that a plan took are not used again,
//! even where it is given up.

use vstd::prelude::*;

use crate::collection::{CollectionConfig, IndexKind};
use crate::engine::apply::same_but_view;
use crate::engine::database::{
    coll_at, lemma_coll_at, lemma_coll_from, lemma_kept_update, unique, Collection, Database, Step,
};
use crate::engine::merge::{build_segment, made, no_rows};
use crate::engine::outcome::settled_kept;
use crate::engine::view::layered;
use crate::error::{Error, Invalid};
use crate::index::hnsw::graph::EMPTY;
use crate::index::hnsw::image::{image_bytes, image_of};
use crate::kernel::{Kernel, Metric};
use crate::manifest::{entry_at, lemma_entry_from, EntryView, Manifest, ManifestView};
use crate::segment::immutable::{keeps, settled_live, ImmutableSegment};
use crate::segment::mutable::MutableSegment;
use crate::text::{is_before, lemma_bytes_chain, lemma_bytes_total, text_before};

verus! {

/// Whether a segment of `n` rows can be given the index that a configuration asks for.
pub open spec fn buildable(config: CollectionConfig, n: nat) -> bool {
    match config.index {
        IndexKind::Flat => true,
        IndexKind::Hnsw { params } => n < EMPTY && n * params.m0 <= usize::MAX,
    }
}

/// Whether steps store a new segment: its files, and then its index if it has one.
pub open spec fn stores_segment(
    steps: Seq<Step>,
    seg: ImmutableSegment,
    seg_id: u64,
    m: MutableSegment,
) -> bool {
    &&& steps.len() == (if seg.graph() is Some {
        2nat
    } else {
        1nat
    })
    &&& steps[0] is WriteSegment
    &&& keeps(steps[0]->WriteSegment_0, seg_id, m)
    &&& seg.graph() is Some ==> (steps[1] matches Step::WriteIndex(id, bytes) && id == seg_id
        && bytes@ == image_bytes(image_of(seg.graph()->0)))
}

/// Makes a segment of the rows of a mutable segment, and adds what has to be stored.
pub(crate) fn stage<N, S>(
    config: &CollectionConfig,
    seg_id: u64,
    m: &MutableSegment,
    kernel: &Kernel<N, S>,
    steps: &mut Vec<Step>,
) -> (r: Result<ImmutableSegment, Error>) where
    N: Fn(&[u32]) -> u32,
    S: Fn(Metric, &[u32], u32, &[u32], u32) -> u32,

    requires
        m.valid(),
        kernel.valid(),
    ensures
        old(steps)@.len() <= final(steps)@.len(),
        final(steps)@.take(old(steps)@.len() as int) == old(steps)@,
        match r {
            Ok(seg) => buildable(*config, m.rows().len()) && made(
                seg,
                *config,
                seg_id,
                *m,
                *kernel,
            ) && stores_segment(
                final(steps)@.skip(old(steps)@.len() as int),
                seg,
                seg_id,
                *m,
            ),
            Err(e) => !buildable(*config, m.rows().len()) && e == Error::Invalid(
                Invalid::SegmentTooLarge,
            ) && *final(steps) == *old(steps),
        },
{
    let ghost before = steps@;
    let n: usize = m.total();
    assert(before.take(before.len() as int) =~= before);
    if let IndexKind::Hnsw { params } = config.index {
        if n >= EMPTY as usize {
            return Err(Error::Invalid(Invalid::SegmentTooLarge));
        }
        proof {
            assert(0 <= n * params.m0 <= 0xFFFF_FFFF_FFFF_FFFF * 0xFFFF_FFFF_FFFF_FFFF)
                by (nonlinear_arith)
                requires
                    0 <= n <= 0xFFFF_FFFF_FFFF_FFFF,
                    0 <= params.m0 <= 0xFFFF_FFFF_FFFF_FFFF,
            ;
        }
        if n as u128 * params.m0 as u128 > usize::MAX as u128 {
            return Err(Error::Invalid(Invalid::SegmentTooLarge));
        }
    }
    match build_segment(config, seg_id, m, kernel) {
        Ok(seg) => {
            steps.push(Step::WriteSegment(ImmutableSegment::write_new(seg_id, m)));
            proof {
                seg.lemma_valid();
            }
            if let Some(g) = seg.ann() {
                steps.push(Step::WriteIndex(seg_id, g.serialize()));
            }
            proof {
                assert(steps@.take(before.len() as int) =~= before);
                let new = steps@.skip(before.len() as int);
                assert(new[0] == steps@[before.len() as int]);
                if seg.graph() is Some {
                    assert(new[1] == steps@[before.len() as int + 1]);
                }
            }
            Ok(seg)
        },
        Err(e) => {
            assert(false);
            Err(e)
        },
    }
}

/// Whether a list gives the collections in the order of their names.
pub open spec fn by_name(colls: Seq<Collection>, order: Seq<usize>) -> bool {
    &&& forall|a: int| 0 <= a < order.len() ==> (#[trigger] order[a]) < colls.len()
    &&& forall|a: int, b: int|
        0 <= a < b < order.len() ==> text_before(
            colls[(#[trigger] order[a]) as int].name@,
            colls[(#[trigger] order[b]) as int].name@,
        )
    &&& forall|i: usize| i < colls.len() ==> order.contains(i)
}

/// A different name comes before or after.
proof fn lemma_names_differ(a: Seq<char>, b: Seq<char>)
    ensures
        a != b ==> text_before(a, b) || text_before(b, a),
        !(text_before(a, b) && text_before(b, a)),
{
    let x = vstd::utf8::encode_utf8(a);
    let y = vstd::utf8::encode_utf8(b);
    lemma_bytes_total(x, y);
    if a != b {
        vstd::utf8::encode_utf8_decode_utf8(a);
        vstd::utf8::encode_utf8_decode_utf8(b);
    }
}

proof fn lemma_names_chain(a: Seq<char>, b: Seq<char>, c: Seq<char>)
    requires
        text_before(a, b),
        text_before(b, c),
    ensures
        text_before(a, c),
{
    lemma_bytes_chain(
        vstd::utf8::encode_utf8(a),
        vstd::utf8::encode_utf8(b),
        vstd::utf8::encode_utf8(c),
    );
}

/// The collections in an order whose mutable segments have rows, out of the first `n`.
pub open spec fn unflushed(colls: Seq<Collection>, order: Seq<usize>, n: nat) -> Seq<usize>
    decreases n,
{
    if n == 0 {
        Seq::empty()
    } else {
        let before = unflushed(colls, order, (n - 1) as nat);
        if colls[order[n - 1] as int].view.mutable.rows().len() > 0 {
            before.push(order[n - 1])
        } else {
            before
        }
    }
}

/// The entries of a manifest once a segment was added to the first one of a name.
pub open spec fn with_segment(entries: Seq<EntryView>, name: Seq<char>, id: u64) -> Seq<EntryView> {
    let at = entry_at(entries, name);
    entries.update(
        at,
        EntryView { segments: entries[at].segments.push(id), ..entries[at] },
    )
}

/// The entries of a manifest once the segments of the first `n` of some collections were
/// added, with numbers from `first` on.
pub open spec fn with_segments(
    entries: Seq<EntryView>,
    colls: Seq<Collection>,
    at: Seq<usize>,
    first: u64,
    n: nat,
) -> Seq<EntryView>
    decreases n,
{
    if n == 0 {
        entries
    } else {
        with_segment(
            with_segments(entries, colls, at, first, (n - 1) as nat),
            colls[at[n - 1] as int].name@,
            (first + n - 1) as u64,
        )
    }
}

/// Whether segments are made of the mutable segments of the first `n` of some collections,
/// and steps store them, one after the other.
pub open spec fn stores_segments<N, S>(
    colls: Seq<Collection>,
    at: Seq<usize>,
    first: u64,
    segs: Seq<ImmutableSegment>,
    steps: Seq<Step>,
    kernel: Kernel<N, S>,
    n: nat,
) -> bool where N: Fn(&[u32]) -> u32, S: Fn(Metric, &[u32], u32, &[u32], u32) -> u32
    decreases n,
{
    if n == 0 {
        steps.len() == 0
    } else {
        let c = colls[at[n - 1] as int];
        let id = (first + n - 1) as u64;
        &&& made(segs[n - 1], c.config, id, c.view.mutable, kernel)
        &&& exists|k: int|
            0 <= k <= steps.len() && #[trigger] stores_segment(
                steps.skip(k),
                segs[n - 1],
                id,
                c.view.mutable,
            ) && stores_segments(
                colls,
                at,
                first,
                segs,
                steps.take(k),
                kernel,
                (n - 1) as nat,
            )
    }
}

/// A flush that is to be carried out.
pub struct FlushPlan {
    /// The collections that have rows to flush, in the order of their names.
    pub at: Vec<usize>,
    /// The new segments of these collections.
    pub segs: Vec<ImmutableSegment>,
    /// The manifest afterwards.
    pub manifest: Manifest,
    /// What has to be stored, in order.
    pub steps: Vec<Step>,
}

/// What making some segments leaves unchanged.
proof fn lemma_stores_prefix<N, S>(
    colls: Seq<Collection>,
    at: Seq<usize>,
    more: usize,
    first: u64,
    segs: Seq<ImmutableSegment>,
    seg: ImmutableSegment,
    steps: Seq<Step>,
    kernel: Kernel<N, S>,
    n: nat,
) where N: Fn(&[u32]) -> u32, S: Fn(Metric, &[u32], u32, &[u32], u32) -> u32
    requires
        stores_segments(colls, at, first, segs, steps, kernel, n),
        n <= at.len(),
        n <= segs.len(),
    ensures
        stores_segments(colls, at.push(more), first, segs.push(seg), steps, kernel, n),
    decreases n,
{
    if n > 0 {
        let c = colls[at[n - 1] as int];
        let id = (first + n - 1) as u64;
        let k = choose|k: int|
            0 <= k <= steps.len() && #[trigger] stores_segment(
                steps.skip(k),
                segs[n - 1],
                id,
                c.view.mutable,
            ) && stores_segments(
                colls,
                at,
                first,
                segs,
                steps.take(k),
                kernel,
                (n - 1) as nat,
            );
        lemma_stores_prefix(
            colls,
            at,
            more,
            first,
            segs,
            seg,
            steps.take(k),
            kernel,
            (n - 1) as nat,
        );
        assert(at.push(more)[n - 1] == at[n - 1]);
        assert(segs.push(seg)[n - 1] == segs[n - 1]);
        assert(stores_segment(steps.skip(k), segs.push(seg)[n - 1], id, c.view.mutable));
    }
}

/// Storing one more segment.
proof fn lemma_stores_more<N, S>(
    colls: Seq<Collection>,
    at: Seq<usize>,
    more: usize,
    first: u64,
    segs: Seq<ImmutableSegment>,
    seg: ImmutableSegment,
    before: Seq<Step>,
    steps: Seq<Step>,
    kernel: Kernel<N, S>,
    n: nat,
) where N: Fn(&[u32]) -> u32, S: Fn(Metric, &[u32], u32, &[u32], u32) -> u32
    requires
        stores_segments(colls, at, first, segs, before, kernel, n),
        n == at.len(),
        n == segs.len(),
        first + n <= u64::MAX,
        before.len() <= steps.len(),
        steps.take(before.len() as int) == before,
        made(
            seg,
            colls[more as int].config,
            (first + n) as u64,
            colls[more as int].view.mutable,
            kernel,
        ),
        stores_segment(
            steps.skip(before.len() as int),
            seg,
            (first + n) as u64,
            colls[more as int].view.mutable,
        ),
    ensures
        stores_segments(colls, at.push(more), first, segs.push(seg), steps, kernel, n + 1),
{
    lemma_stores_prefix(colls, at, more, first, segs, seg, before, kernel, n);
    let k = before.len() as int;
    let c = colls[at.push(more)[n as int] as int];
    assert(at.push(more)[n as int] == more);
    assert(segs.push(seg)[n as int] == seg);
    assert((first + (n + 1) - 1) as u64 == (first + n) as u64);
    assert(stores_segment(
        steps.skip(k),
        segs.push(seg)[(n + 1) - 1],
        (first + (n + 1) - 1) as u64,
        c.view.mutable,
    ));
    assert(((n + 1) - 1) as nat == n);
}

impl Database {
    /// The collections in the order of their names.
    fn name_order(&self) -> (order: Vec<usize>)
        requires
            self.valid(),
        ensures
            by_name(self.collections@, order@),
            order@.len() == self.collections@.len(),
    {
        let ghost colls = self.collections@;
        let mut order: Vec<usize> = Vec::new();
        let mut i: usize = 0;
        while i < self.collections.len()
            invariant
                i <= colls.len(),
                colls == self.collections@,
                unique(colls),
                order@.len() == i,
                forall|a: int| 0 <= a < order@.len() ==> (#[trigger] order@[a]) < i,
                forall|a: int, b: int|
                    0 <= a < b < order@.len() ==> text_before(
                        colls[(#[trigger] order@[a]) as int].name@,
                        colls[(#[trigger] order@[b]) as int].name@,
                    ),
                forall|j: usize| j < i ==> order@.contains(j),
            decreases colls.len() - i,
        {
            let ghost s = order@;
            let mut p: usize = order.len();
            while p > 0 && is_before(
                self.collections[i].name.as_str(),
                self.collections[order[p - 1]].name.as_str(),
            )
                invariant
                    i < colls.len(),
                    colls == self.collections@,
                    p <= s.len(),
                    order@ == s,
                    forall|a: int| 0 <= a < s.len() ==> (#[trigger] s[a]) < i,
                    forall|x: int|
                        p <= x < s.len() ==> text_before(
                            colls[i as int].name@,
                            colls[(#[trigger] s[x]) as int].name@,
                        ),
                decreases p,
            {
                p = p - 1;
            }
            order.insert(p, i);
            proof {
                let t = order@;
                assert forall|a: int, b: int| 0 <= a < b < t.len() implies text_before(
                    colls[(#[trigger] t[a]) as int].name@,
                    colls[(#[trigger] t[b]) as int].name@,
                ) by {
                    if a == p {
                        assert(t[b] == s[b - 1]);
                    } else if b == p {
                        assert(t[a] == s[a]);
                        assert(colls[s[a] as int].name@ != colls[i as int].name@);
                        lemma_names_differ(colls[s[p - 1] as int].name@, colls[i as int].name@);
                        assert(colls[s[p - 1] as int].name@ != colls[i as int].name@);
                        if a < p - 1 {
                            lemma_names_chain(
                                colls[s[a] as int].name@,
                                colls[s[p - 1] as int].name@,
                                colls[i as int].name@,
                            );
                        }
                    } else {
                        let x = if a < p {
                            a
                        } else {
                            a - 1
                        };
                        let y = if b < p {
                            b
                        } else {
                            b - 1
                        };
                        assert(t[a] == s[x] && t[b] == s[y]);
                    }
                }
                assert forall|j: usize| j < i + 1 implies t.contains(j) by {
                    if j < i {
                        assert(s.contains(j));
                        let x = choose|x: int| 0 <= x < s.len() && s[x] == j;
                        if x < p {
                            assert(t[x] == j);
                        } else {
                            assert(t[x + 1] == j);
                        }
                    } else {
                        assert(t[p as int] == j);
                    }
                }
                assert forall|a: int| 0 <= a < t.len() implies (#[trigger] t[a]) < i + 1 by {
                    if a < p {
                        assert(t[a] == s[a]);
                    } else if a > p {
                        assert(t[a] == s[a - 1]);
                    }
                }
            }
            i = i + 1;
        }
        order
    }

    /// The names of the collections, in order.
    pub fn collections(&self) -> (r: Vec<String>)
        requires
            self.valid(),
        ensures
            r@.len() == self.collections@.len(),
            forall|a: int, b: int|
                0 <= a < b < r@.len() ==> text_before((#[trigger] r@[a])@, (#[trigger] r@[b])@),
            forall|a: int| 0 <= a < r@.len() ==> self.kept((#[trigger] r@[a])@) is Some,
            forall|name: Seq<char>| #[trigger]
                self.kept(name) is Some ==> exists|a: int|
                    0 <= a < r@.len() && (#[trigger] r@[a])@ == name,
    {
        let order = self.name_order();
        let mut r: Vec<String> = Vec::new();
        let mut i: usize = 0;
        while i < order.len()
            invariant
                i <= order@.len(),
                by_name(self.collections@, order@),
                r@.len() == i,
                forall|a: int|
                    0 <= a < i ==> (#[trigger] r@[a])@ == self.collections@[order@[a] as int].name@,
            decreases order.len() - i,
        {
            assert(order@[i as int] < self.collections@.len());
            r.push(self.collections[order[i]].name.clone());
            i = i + 1;
        }
        proof {
            assert forall|a: int| 0 <= a < r@.len() implies self.kept(
                (#[trigger] r@[a])@,
            ) is Some by {
                lemma_coll_at(self.collections@, order@[a] as int);
            }
            assert forall|name: Seq<char>| #[trigger] self.kept(name) is Some implies exists|a: int|
                0 <= a < r@.len() && (#[trigger] r@[a])@ == name by {
                lemma_coll_from(self.collections@, name, 0);
                let j = coll_at(self.collections@, name);
                assert(order@.contains(j as usize));
                let a = choose|a: int| 0 <= a < order@.len() && order@[a] == j as usize;
                assert(r@[a]@ == name);
            }
        }
        r
    }

    /// The collections that have rows to flush, in the order of their names.
    pub open spec fn flushes(&self, at: Seq<usize>) -> bool {
        exists|order: Seq<usize>| #[trigger]
            by_name(self.collections@, order) && order.len() == self.collections@.len() && at
                == unflushed(self.collections@, order, order.len())
    }
}

/// Adding segments changes no names.
pub proof fn lemma_names_stay(
    entries: Seq<EntryView>,
    colls: Seq<Collection>,
    at: Seq<usize>,
    first: u64,
    n: nat,
)
    requires
        n <= at.len(),
        forall|j: int|
            0 <= j < n ==> entry_at(entries, colls[(#[trigger] at[j]) as int].name@)
                < entries.len(),
    ensures
        with_segments(entries, colls, at, first, n).len() == entries.len(),
        forall|i: int|
            0 <= i < entries.len() ==> (#[trigger] with_segments(
                entries,
                colls,
                at,
                first,
                n,
            )[i]).name == entries[i].name && with_segments(entries, colls, at, first, n)[i].config
                == entries[i].config,
        forall|name: Seq<char>| #[trigger]
            entry_at(with_segments(entries, colls, at, first, n), name) == entry_at(entries, name),
    decreases n,
{
    if n > 0 {
        lemma_names_stay(entries, colls, at, first, (n - 1) as nat);
        let mid = with_segments(entries, colls, at, first, (n - 1) as nat);
        let after = with_segments(entries, colls, at, first, n);
        let name = colls[at[n - 1] as int].name@;
        lemma_entry_from(mid, name, 0);
        assert(entry_at(entries, name) < entries.len());
        assert forall|i: int| 0 <= i < entries.len() implies (#[trigger] after[i]).name
            == entries[i].name && after[i].config == entries[i].config by {
            assert(mid[i].name == entries[i].name);
        }
        assert forall|other: Seq<char>| #[trigger] entry_at(after, other) == entry_at(
            entries,
            other,
        ) by {
            lemma_same_places(entries, after, other, 0);
        }
    }
}

/// Entries of the same names are in the same places.
pub proof fn lemma_same_places(a: Seq<EntryView>, b: Seq<EntryView>, name: Seq<char>, i: int)
    requires
        a.len() == b.len(),
        0 <= i <= a.len(),
        forall|k: int| 0 <= k < a.len() ==> (#[trigger] a[k]).name == b[k].name,
    ensures
        crate::manifest::entry_from(a, name, i) == crate::manifest::entry_from(b, name, i),
    decreases a.len() - i,
{
    if i < a.len() {
        assert(a[i].name == b[i].name);
        lemma_same_places(a, b, name, i + 1);
    }
}

/// What the list of the collections with rows says.
pub proof fn lemma_unflushed(colls: Seq<Collection>, order: Seq<usize>, n: nat)
    requires
        by_name(colls, order),
        n <= order.len(),
    ensures
        unflushed(colls, order, n).len() <= n,
        forall|j: int|
            0 <= j < unflushed(colls, order, n).len() ==> (#[trigger] unflushed(
                colls,
                order,
                n,
            )[j]) < colls.len() && colls[unflushed(
                colls,
                order,
                n,
            )[j] as int].view.mutable.rows().len() > 0,
        forall|a: int, b: int|
            0 <= a < b < unflushed(colls, order, n).len() ==> text_before(
                colls[(#[trigger] unflushed(colls, order, n)[a]) as int].name@,
                colls[(#[trigger] unflushed(colls, order, n)[b]) as int].name@,
            ),
        forall|j: int|
            0 <= j < unflushed(colls, order, n).len() ==> exists|k: int|
                0 <= k < n && order[k] == #[trigger] unflushed(colls, order, n)[j],
        forall|k: int|
            0 <= k < n && colls[(#[trigger] order[k]) as int].view.mutable.rows().len() > 0
                ==> unflushed(colls, order, n).contains(order[k]),
    decreases n,
{
    if n > 0 {
        lemma_unflushed(colls, order, (n - 1) as nat);
        let before = unflushed(colls, order, (n - 1) as nat);
        let after = unflushed(colls, order, n);
        let last = order[n - 1];
        if colls[last as int].view.mutable.rows().len() > 0 {
            assert forall|a: int, b: int| 0 <= a < b < after.len() implies text_before(
                colls[(#[trigger] after[a]) as int].name@,
                colls[(#[trigger] after[b]) as int].name@,
            ) by {
                if b == before.len() {
                    assert(before[a] == after[a]);
                    let k = choose|k: int| 0 <= k < n - 1 && order[k] == before[a];
                    assert(text_before(
                        colls[order[k] as int].name@,
                        colls[order[n - 1] as int].name@,
                    ));
                } else {
                    assert(after[a] == before[a] && after[b] == before[b]);
                }
            }
            assert forall|j: int| 0 <= j < after.len() implies exists|k: int|
                0 <= k < n && order[k] == #[trigger] after[j] by {
                if j < before.len() {
                    assert(after[j] == before[j]);
                    let k = choose|k: int| 0 <= k < n - 1 && order[k] == before[j];
                    assert(order[k] == after[j]);
                } else {
                    assert(order[n - 1] == after[j]);
                }
            }
            assert forall|k: int|
                0 <= k < n && colls[(#[trigger] order[k]) as int].view.mutable.rows().len()
                    > 0 implies after.contains(order[k]) by {
                if k < n - 1 {
                    assert(before.contains(order[k]));
                    let j = choose|j: int| 0 <= j < before.len() && before[j] == order[k];
                    assert(after[j] == order[k]);
                } else {
                    assert(after[before.len() as int] == order[k]);
                }
            }
            assert forall|j: int| 0 <= j < after.len() implies (#[trigger] after[j]) < colls.len()
                && colls[after[j] as int].view.mutable.rows().len() > 0 by {
                if j < before.len() {
                    assert(after[j] == before[j]);
                }
            }
        } else {
            assert forall|j: int| 0 <= j < after.len() implies exists|k: int|
                0 <= k < n && order[k] == #[trigger] after[j] by {
                let k = choose|k: int| 0 <= k < n - 1 && order[k] == before[j];
                assert(order[k] == after[j]);
            }
        }
    }
}

impl Database {
    /// What a plan leaves as it is: everything but the number of the next segment.
    pub open spec fn only_numbers(&self, after: Database) -> bool {
        &&& after.options == self.options
        &&& after.manifest == self.manifest
        &&& after.collections == self.collections
        &&& after.recovery_clean == self.recovery_clean
    }

    /// Whether a plan is that of a flush: all collections with rows get a new segment that
    /// holds them, in the order of their names; then the manifest has these segments, and
    /// says that all records before `next_lsn` are in segments; then the log is emptied.
    pub open spec fn flush_planned<N, S>(
        &self,
        plan: FlushPlan,
        next_lsn: u64,
        kernel: Kernel<N, S>,
    ) -> bool where N: Fn(&[u32]) -> u32, S: Fn(Metric, &[u32], u32, &[u32], u32) -> u32 {
        let n = plan.at@.len();
        let steps = plan.steps@;
        &&& self.flushes(plan.at@)
        &&& plan.segs@.len() == n
        &&& plan.manifest@ == (ManifestView {
            version: self.manifest@.version,
            last_flushed_lsn: (next_lsn - 1) as u64,
            entries: with_segments(
                self.manifest@.entries,
                self.collections@,
                plan.at@,
                self.next_seg_id,
                n,
            ),
        })
        &&& steps.len() >= 2
        &&& steps[steps.len() - 1] is ResetLog
        &&& steps[steps.len() - 2] is SaveManifest
        &&& steps[steps.len() - 2]->SaveManifest_0@ == plan.manifest@
        &&& stores_segments(
            self.collections@,
            plan.at@,
            self.next_seg_id,
            plan.segs@,
            steps.take(steps.len() - 2),
            kernel,
            n,
        )
    }

    /// Whether a flush cannot be planned, for that reason: a collection has too many rows
    /// to index, or is not in the manifest.
    pub open spec fn flush_refused(&self, e: Error) -> bool {
        exists|at: Seq<usize>, j: int| #[trigger]
            self.flushes(at) && 0 <= j < at.len() && {
                let c = self.collections@[(#[trigger] at[j]) as int];
                ||| !buildable(c.config, c.view.mutable.rows().len()) && e == Error::Invalid(
                    Invalid::SegmentTooLarge,
                )
                ||| entry_at(self.manifest@.entries, c.name@) == self.manifest@.entries.len() && (
                e matches Error::Invalid(Invalid::FlushMissing(name)) && name@ == c.name@)
            }
    }

    /// Whether a flush was carried out in memory: the rows of the collections went to their
    /// new segments.
    pub open spec fn flush_committed(&self, after: Database, plan: FlushPlan) -> bool {
        &&& after.options == self.options
        &&& after.next_seg_id == self.next_seg_id
        &&& after.recovery_clean == self.recovery_clean
        &&& after.manifest == plan.manifest
        &&& after.collections@.len() == self.collections@.len()
        &&& forall|j: int|
            0 <= j < plan.at@.len() ==> flushed_to(
                self.collections@[plan.at@[j] as int],
                after.collections@[plan.at@[j] as int],
                #[trigger] plan.segs@[j],
            )
        &&& forall|i: usize|
            i < self.collections@.len() && !plan.at@.contains(i)
                ==> #[trigger] after.collections@[i as int] == self.collections@[i as int]
    }

    /// Plans a flush. `next_lsn` is the number of the next record of the log. The log is
    /// emptied also where no collection has rows to flush.
    #[verifier::rlimit(40)]
    pub fn plan_flush<N, S>(&mut self, next_lsn: u64, kernel: &Kernel<N, S>) -> (r: Result<
        FlushPlan,
        Error,
    >) where N: Fn(&[u32]) -> u32, S: Fn(Metric, &[u32], u32, &[u32], u32) -> u32
        requires
            old(self).valid(),
            kernel.valid(),
            next_lsn > 0,
            old(self).next_seg_id + old(self).collections@.len() <= u64::MAX,
        ensures
            old(self).only_numbers(*final(self)),
            old(self).next_seg_id <= final(self).next_seg_id,
            match r {
                Ok(plan) => old(self).flush_planned(plan, next_lsn, *kernel) && final(self).next_seg_id == old(self).next_seg_id + plan.at@.len(),
                Err(e) => old(self).flush_refused(e),
            },
    {
        let ghost colls = self.collections@;
        let ghost first = self.next_seg_id;
        let order = self.name_order();
        let ghost all = unflushed(colls, order@, order@.len());
        proof {
            lemma_unflushed(colls, order@, order@.len());
            assert(self.flushes(all));
        }
        let mut at: Vec<usize> = Vec::new();
        let mut segs: Vec<ImmutableSegment> = Vec::new();
        let mut steps: Vec<Step> = Vec::new();
        let mut i: usize = 0;
        while i < order.len()
            invariant
                i <= order@.len(),
                order@.len() == colls.len(),
                old(self).valid(),
                colls == old(self).collections@,
                first == old(self).next_seg_id,
                old(self).only_numbers(*self),
                kernel.valid(),
                by_name(colls, order@),
                all == unflushed(colls, order@, order@.len()),
                old(self).flushes(all),
                first + colls.len() <= u64::MAX,
                self.next_seg_id == first + at@.len(),
                at@ == unflushed(colls, order@, i as nat),
                at@.len() <= i,
                segs@.len() == at@.len(),
                stores_segments(colls, at@, first, segs@, steps@, *kernel, at@.len()),
            decreases order.len() - i,
        {
            let k: usize = order[i];
            assert(order@[i as int] < colls.len());
            let ghost c = colls[k as int];
            if !self.collections[k].view.mutable.is_empty() {
                let seg_id: u64 = self.next_seg_id;
                self.next_seg_id = seg_id + 1;
                let ghost steps0 = steps@;
                let ghost segs0 = segs@;
                let ghost at0 = at@;
                assert(c.valid());
                match stage(
                    &self.collections[k].config,
                    seg_id,
                    &self.collections[k].view.mutable,
                    kernel,
                    &mut steps,
                ) {
                    Ok(seg) => {
                        proof {
                            lemma_stores_more(
                                colls,
                                at0,
                                k,
                                first,
                                segs0,
                                seg,
                                steps0,
                                steps@,
                                *kernel,
                                at0.len(),
                            );
                        }
                        at.push(k);
                        segs.push(seg);
                    },
                    Err(e) => {
                        proof {
                            lemma_unflushed(colls, order@, order@.len());
                            assert(all.contains(order@[i as int]));
                            let j = choose|j: int| 0 <= j < all.len() && all[j] == k;
                            assert(old(self).flushes(all) && all[j] == k);
                        }
                        return Err(e);
                    },
                }
            }
            i = i + 1;
        }
        proof {
            lemma_unflushed(colls, order@, order@.len());
        }
        let mut manifest = self.manifest.copy();
        let ghost entries = self.manifest@.entries;
        let mut j: usize = 0;
        while j < at.len()
            invariant
                j <= at@.len(),
                at@ == all,
                colls == old(self).collections@,
                first == old(self).next_seg_id,
                old(self).only_numbers(*self),
                old(self).flushes(all),
                entries == self.manifest@.entries,
                first + at@.len() <= u64::MAX,
                self.next_seg_id == first + at@.len(),
                forall|x: int| 0 <= x < at@.len() ==> (#[trigger] at@[x]) < colls.len(),
                forall|x: int|
                    0 <= x < j ==> entry_at(entries, colls[(#[trigger] at@[x]) as int].name@)
                        < entries.len(),
                manifest@.version == self.manifest@.version,
                manifest@.entries == with_segments(entries, colls, at@, first, j as nat),
            decreases at.len() - j,
        {
            let k: usize = at[j];
            let ghost name = colls[k as int].name@;
            let ghost mid = manifest@.entries;
            proof {
                lemma_names_stay(entries, colls, at@, first, j as nat);
                assert(at@[j as int] < colls.len());
                lemma_entry_from(entries, name, 0);
            }
            let id: u64 = first_plus(self.next_seg_id, at.len(), j);
            match manifest.entry_mut(self.collections[k].name.as_str()) {
                Some(e) => {
                    e.segments.push(id);
                },
                None => {
                    assert(old(self).flushes(all) && all[j as int] == k);
                    return Err(
                        Error::Invalid(Invalid::FlushMissing(self.collections[k].name.clone())),
                    );
                },
            }
            proof {
                assert(id == first + j);
                assert(manifest@.entries =~= with_segment(mid, name, id));
            }
            j = j + 1;
        }
        manifest.last_flushed_lsn = next_lsn - 1;
        let ghost before = steps@;
        steps.push(Step::SaveManifest(manifest.copy()));
        steps.push(Step::ResetLog);
        assert(steps@.take(steps@.len() - 2) =~= before);
        Ok(FlushPlan { at, segs, manifest, steps })
    }
}

/// Whether a collection is another one whose rows went to a new segment.
pub open spec fn flushed_to(a: Collection, b: Collection, seg: ImmutableSegment) -> bool {
    &&& same_but_view(a, b)
    &&& b.view.immutables@ == a.view.immutables@.push(seg)
    &&& b.view.mutable.table() == no_rows()
    &&& b.view.contents() == layered(a.view.immutables@).union_prefer_right(
        settled_live(a.view.mutable.live()),
    )
}

/// Whether two states keep the same under every name, as files keep it.
pub open spec fn keeps_same(a: Database, b: Database) -> bool {
    forall|name: Seq<char>| #[trigger] settled_kept(b.kept(name)) == settled_kept(a.kept(name))
}

/// What is kept where the view of one collection changed and its points did not.
pub proof fn lemma_keeps_same(a: Database, b: Database, at: int)
    requires
        a.valid(),
        0 <= at < a.collections@.len(),
        b.collections@.len() == a.collections@.len(),
        b.collections@ == a.collections@.update(at, b.collections@[at]),
        same_but_view(a.collections@[at], b.collections@[at]),
        b.collections@[at].valid(),
        settled_live(b.collections@[at].view.contents()) == settled_live(
            a.collections@[at].view.contents(),
        ),
        a.collections@[at].view.apart() ==> b.collections@[at].view.apart(),
    ensures
        b.valid(),
        a.apart() ==> b.apart(),
        keeps_same(a, b),
{
    let colls = a.collections@;
    let new = b.collections@[at];
    lemma_kept_update(colls, at, new, new.name@);
    lemma_coll_at(colls, at);
    assert forall|i: int| 0 <= i < b.collections@.len() implies (
    #[trigger] b.collections@[i]).valid() && (a.apart() ==> b.collections@[i].view.apart()) by {
        assert(colls[i].valid());
        if i != at {
            assert(b.collections@[i] == colls[i]);
        }
    }
    assert forall|name: Seq<char>| #[trigger] settled_kept(b.kept(name)) == settled_kept(
        a.kept(name),
    ) by {
        lemma_kept_update(colls, at, new, name);
    }
}

impl FlushPlan {
    /// Whether the segments of the plan hold the rows of the collections that it is about.
    pub open spec fn suits(&self, db: Database) -> bool {
        &&& self.at@.len() == self.segs@.len()
        &&& forall|j: int|
            0 <= j < self.at@.len() ==> (#[trigger] self.at@[j]) < db.collections@.len()
        &&& forall|j: int|
            0 <= j < self.at@.len() ==> {
                let c = db.collections@[self.at@[j] as int];
                &&& (#[trigger] self.segs@[j]).valid()
                &&& self.segs@[j].width() == c.view.width()
                &&& self.segs@[j].live() == settled_live(c.view.mutable.live())
                &&& self.segs@[j].rows().len() <= c.view.mutable.rows().len()
            }
        &&& forall|a: int, b: int|
            0 <= a < b < self.at@.len() ==> #[trigger] self.at@[a] != #[trigger] self.at@[b]
    }
}

/// The segments that are stored are made of the rows.
pub proof fn lemma_stores_made<N, S>(
    colls: Seq<Collection>,
    at: Seq<usize>,
    first: u64,
    segs: Seq<ImmutableSegment>,
    steps: Seq<Step>,
    kernel: Kernel<N, S>,
    n: nat,
    j: int,
) where N: Fn(&[u32]) -> u32, S: Fn(Metric, &[u32], u32, &[u32], u32) -> u32
    requires
        stores_segments(colls, at, first, segs, steps, kernel, n),
        0 <= j < n,
    ensures
        made(
            segs[j],
            colls[at[j] as int].config,
            (first + j) as u64,
            colls[at[j] as int].view.mutable,
            kernel,
        ),
    decreases n,
{
    if j < n - 1 {
        let c = colls[at[n - 1] as int];
        let id = (first + n - 1) as u64;
        let k = choose|k: int|
            0 <= k <= steps.len() && #[trigger] stores_segment(
                steps.skip(k),
                segs[n - 1],
                id,
                c.view.mutable,
            ) && stores_segments(
                colls,
                at,
                first,
                segs,
                steps.take(k),
                kernel,
                (n - 1) as nat,
            );
        lemma_stores_made(
            colls,
            at,
            first,
            segs,
            steps.take(k),
            kernel,
            (n - 1) as nat,
            j,
        );
    }
}

/// A plan suits the state for which it was made.
pub proof fn lemma_flush_suits<N, S>(
    db: Database,
    plan: FlushPlan,
    next_lsn: u64,
    kernel: Kernel<N, S>,
) where N: Fn(&[u32]) -> u32, S: Fn(Metric, &[u32], u32, &[u32], u32) -> u32
    requires
        db.valid(),
        db.flush_planned(plan, next_lsn, kernel),
    ensures
        plan.suits(db),
{
    let colls = db.collections@;
    let order = choose|order: Seq<usize>| #[trigger]
        by_name(colls, order) && order.len() == colls.len() && plan.at@ == unflushed(
            colls,
            order,
            order.len(),
        );
    lemma_unflushed(colls, order, order.len());
    assert forall|j: int| 0 <= j < plan.at@.len() implies (#[trigger] plan.segs@[j]).valid()
        && plan.segs@[j].width() == colls[plan.at@[j] as int].view.width() && plan.segs@[j].live()
        == settled_live(colls[plan.at@[j] as int].view.mutable.live()) && plan.segs@[j].rows().len()
        <= colls[plan.at@[j] as int].view.mutable.rows().len() by {
        lemma_stores_made(
            colls,
            plan.at@,
            db.next_seg_id,
            plan.segs@,
            plan.steps@.take(plan.steps@.len() - 2),
            kernel,
            plan.at@.len(),
            j,
        );
    }
    assert forall|a: int, b: int|
        0 <= a < b < plan.at@.len() implies #[trigger] plan.at@[a] != #[trigger] plan.at@[b] by {
        lemma_names_differ(
            colls[plan.at@[a] as int].name@,
            colls[plan.at@[b] as int].name@,
        );
    }
}

impl Database {
    /// Carries out a flush in memory, once everything is stored: the rows of the collections
    /// are in their new segments.
    pub fn commit_flush(&mut self, plan: FlushPlan)
        requires
            old(self).valid(),
            plan.suits(*old(self)),
        ensures
            final(self).valid(),
            old(self).flush_committed(*final(self), plan),
            keeps_same(*old(self), *final(self)),
            old(self).apart() ==> final(self).apart(),
    {
        let ghost whole = plan;
        let ghost colls = self.collections@;
        let ghost before = *self;
        let FlushPlan { at, segs, manifest, steps } = plan;
        let mut segs = segs;
        self.manifest = manifest;
        let mut n: usize = at.len();
        assert(segs@.take(n as int) =~= segs@);
        while n > 0
            invariant
                n <= at@.len(),
                at == whole.at,
                segs@ == whole.segs@.take(n as int),
                before == *old(self),
                colls == before.collections@,
                before.valid(),
                whole.suits(before),
                self.valid(),
                self.options == before.options,
                self.next_seg_id == before.next_seg_id,
                self.recovery_clean == before.recovery_clean,
                self.manifest == whole.manifest,
                self.collections@.len() == colls.len(),
                forall|j: int|
                    n <= j < at@.len() ==> flushed_to(
                        colls[at@[j] as int],
                        self.collections@[at@[j] as int],
                        #[trigger] whole.segs@[j],
                    ),
                forall|i: usize|
                    i < colls.len() && !at@.skip(n as int).contains(i)
                        ==> #[trigger] self.collections@[i as int] == colls[i as int],
                keeps_same(before, *self),
                before.apart() ==> self.apart(),
            decreases n,
        {
            n = n - 1;
            let k: usize = at[n];
            let ghost mid = *self;
            assert(at@[n as int] < colls.len());
            let ghost later = at@.skip(n + 1);
            assert(!later.contains(k)) by {
                if later.contains(k) {
                    let x = choose|x: int| 0 <= x < later.len() && later[x] == k;
                    assert(at@[n as int] != at@[n + 1 + x]);
                }
            }
            assert(self.collections@[k as int] == colls[k as int]);
            match segs.pop() {
                None => {
                    assert(false);
                },
                Some(seg) => {
                    assert(segs@ =~= whole.segs@.take(n as int));
                    assert(seg == whole.segs@[n as int]);
                    assert(colls[k as int].valid());
                    self.collections[k].view.install_flushed(seg);
                    proof {
                        let new = self.collections@[k as int];
                        assert(self.collections@ =~= mid.collections@.update(k as int, new));
                        lemma_keeps_same(mid, *self, k as int);
                        assert forall|name: Seq<char>| #[trigger] settled_kept(self.kept(name))
                            == settled_kept(before.kept(name)) by {
                            assert(settled_kept(mid.kept(name)) == settled_kept(
                                before.kept(name),
                            ));
                        }
                        assert forall|j: int| n <= j < at@.len() implies flushed_to(
                            colls[at@[j] as int],
                            self.collections@[at@[j] as int],
                            #[trigger] whole.segs@[j],
                        ) by {
                            if j > n {
                                assert(at@[n as int] != at@[j]);
                                assert(self.collections@[at@[j] as int]
                                    == mid.collections@[at@[j] as int]);
                            }
                        }
                        assert forall|i: usize|
                            i < colls.len() && !at@.skip(n as int).contains(
                                i,
                            ) implies #[trigger] self.collections@[i as int]
                            == colls[i as int] by {
                            assert(at@.skip(n as int)[0] == k);
                            if later.contains(i) {
                                let x = choose|x: int| 0 <= x < later.len() && later[x] == i;
                                assert(at@.skip(n as int)[x + 1] == i);
                            }
                            assert(mid.collections@[i as int] == colls[i as int]);
                        }
                    }
                },
            }
        }
        assert(at@.skip(0) =~= at@);
    }
}

/// The number of item `j` of `n` items that were numbered up to `next`.
fn first_plus(next: u64, n: usize, j: usize) -> (r: u64)
    requires
        j < n,
        n <= next,
    ensures
        r == next - n + j,
{
    next - (n - j) as u64
}

/// A segment can be given its index unless it has more rows than the graph can number, or more places
/// for links than memory can have.
pub proof fn law_segments_can_be_indexed(config: CollectionConfig, n: nat)
    ensures
        config.index is Flat ==> buildable(config, n),
        config.index matches IndexKind::Hnsw { params } ==> buildable(config, n) == (n < u32::MAX
            && n * params.m0 <= usize::MAX),
{
}

} // verus!
