//! Databases and their collections.
//!
//! A method of [`Collection`] or [`Database`] checks a write, and gives the operation to log.
//! [`Database::write`] logs and applies it. What has to be stored then is given as [`Step`]s, to
//! be performed in order.
//!
//! Flushing, compacting and rebuilding are planned first. The plan gives the steps to be
//! performed in order, and is carried out in memory once they are.

use vstd::prelude::*;

use crate::collection::CollectionConfig;
use crate::engine::outcome::{all_fit, Kept};
use crate::engine::view::CollView;
use crate::error::{Error, Invalid};
use crate::filter::Condition;
use crate::id::{ExternalId, IdView};
use crate::json::Json;
use crate::kernel::{Kernel, Metric};
use crate::manifest::Manifest;
use crate::query::{Query, ScoredPoint, ScrollPage};
use crate::segment::immutable::SegmentParts;
use crate::segment::{Entry, Point};
use crate::text::is_same;
use crate::wal::{copy_ids, copy_points, id_views, point_views, Op, OpView};

verus! {

/// When collections are flushed without being asked to.
#[derive(Debug, Clone, Copy, PartialEq, Eq, Structural)]
pub struct DatabaseOptions {
    /// How many rows the mutable segment may have at most before it is flushed.
    pub auto_flush_points: usize,
    /// How many bytes the mutable segment may take at most before it is flushed.
    pub auto_flush_bytes: u64,
}

impl Default for DatabaseOptions {
    fn default() -> (r: Self)
        ensures
            r == (DatabaseOptions { auto_flush_points: 50_000, auto_flush_bytes: 268_435_456 }),
    {
        DatabaseOptions { auto_flush_points: 50_000, auto_flush_bytes: 268_435_456 }
    }
}

/// A collection.
pub struct Collection {
    /// The name.
    pub name: String,
    /// The configuration.
    pub config: CollectionConfig,
    /// The segments.
    pub view: CollView,
}

/// A database.
pub struct Database {
    /// When collections are flushed without being asked to.
    pub options: DatabaseOptions,
    /// What the database consists of.
    pub manifest: Manifest,
    /// The collections.
    pub collections: Vec<Collection>,
    /// The number of the next segment.
    pub next_seg_id: u64,
    /// Whether the log was whole when the database was opened.
    pub recovery_clean: bool,
}

/// Something to be stored.
pub enum Step {
    /// The files of a new segment, in a directory of its own.
    WriteSegment(SegmentParts),
    /// The graph index of a segment.
    WriteIndex(u64, Vec<u8>),
    /// The marks of the deleted rows of a segment, in place of those before.
    WriteTombstones(u64, Vec<u8>),
    /// The new payloads of a segment, in place of those before.
    WriteOverlay(u64, Vec<(ExternalId, Option<Json>)>),
    /// The manifest, in place of the one before.
    SaveManifest(Manifest),
    /// The log is emptied.
    ResetLog,
    /// The directory of a segment is removed. It does not matter if this fails.
    RemoveSegment(u64),
}

impl Collection {
    /// The segments are valid, with vectors of the dimension that is configured.
    pub open spec fn valid(&self) -> bool {
        &&& self.view.valid()
        &&& self.view.width() == self.config.dim
    }

    /// What is kept.
    pub open spec fn kept(&self) -> Kept {
        Kept { config: self.config, points: self.view.contents() }
    }

    /// A collection without points.
    pub fn new(name: &str, config: CollectionConfig) -> (r: Self)
        ensures
            r.valid(),
            r.name@ == name@,
            r.config == config,
            r.view.apart(),
            r.view.immutables@.len() == 0,
            r.view.mutable.rows().len() == 0,
            r.view.contents() == Map::<IdView, Entry>::empty(),
    {
        Collection { name: name.to_owned(), config, view: CollView::new(config.dim) }
    }

    /// The name.
    pub fn name(&self) -> (r: &str)
        ensures
            r@ == self.name@,
    {
        self.name.as_str()
    }

    /// The configuration.
    pub fn config(&self) -> (r: &CollectionConfig)
        ensures
            *r == self.config,
    {
        &self.config
    }

    /// The number of points.
    pub fn count(&self) -> (r: u64)
        requires
            self.valid(),
            self.view.rows_total() <= u64::MAX,
        ensures
            r == self.view.alive_total(),
            self.view.apart() ==> r == self.kept().points.len() && self.kept().points.dom().finite(),
    {
        self.view.count()
    }

    /// The points of some identifiers, in their order; none where there is no point.
    pub fn get(&self, ids: &[ExternalId]) -> (r: Vec<Option<Point>>)
        requires
            self.valid(),
        ensures
            r@.len() == ids@.len(),
            forall|i: int|
                0 <= i < ids@.len() ==> match #[trigger] r@[i] {
                    Some(p) => self.kept().points.contains_key(ids@[i]@) && p.id@ == ids@[i]@
                        && p.entry() == self.kept().points[ids@[i]@],
                    None => !self.kept().points.contains_key(ids@[i]@),
                },
    {
        self.view.get(ids)
    }

    /// A page of the points that meet a condition.
    pub fn scroll(&self, offset: u64, limit: usize, filter: &Option<Condition>) -> (r: ScrollPage)
        requires
            self.valid(),
            self.view.rows_total() <= u64::MAX,
        ensures
            crate::engine::read::shows(
                r.points@,
                crate::engine::read::page(
                    self.view.listed(*filter),
                    offset as nat,
                    crate::engine::read::page_size(limit),
                ),
            ),
            r.next_offset == crate::engine::read::next_page(
                self.view.listed(*filter).len(),
                offset,
                limit,
            ),
    {
        self.view.scroll(offset, limit, filter)
    }

    /// The nearest points, best first.
    pub fn query<N, S>(&self, kernel: &Kernel<N, S>, q: &Query) -> (r: Result<
        Vec<ScoredPoint>,
        Error,
    >) where N: Fn(&[u32]) -> u32, S: Fn(Metric, &[u32], u32, &[u32], u32) -> u32
        requires
            self.valid(),
            kernel.valid(),
        ensures
            match crate::engine::search::target(self.view, self.config.dim, *q) {
                Err(e) => r == Err::<Vec<ScoredPoint>, Error>(e),
                Ok((v, exclude)) => r is Ok && self.view.may_give(
                    self.config.metric,
                    *kernel,
                    *q,
                    v,
                    exclude,
                    r->Ok_0@,
                ),
            },
    {
        self.view.query(&self.config, kernel, q)
    }

    /// Checks points that are to be written, and gives the operation to log; none if there
    /// are no points. It fails where a vector does not have the dimension of the collection.
    pub fn upsert(&self, points: &[Point]) -> (r: Result<Option<Op>, Error>)
        ensures
            match r {
                Ok(None) => points@.len() == 0,
                Ok(Some(op)) => points@.len() > 0 && all_fit(
                    point_views(points@),
                    self.config.dim as nat,
                ) && op@ == (OpView::Upsert { name: self.name@, points: point_views(points@) }),
                Err(e) => exists|i: int|
                    0 <= i < points@.len() && first_misfit(points@, self.config.dim as nat, i)
                        && e == (Error::DimensionMismatch {
                        expected: self.config.dim,
                        got: (#[trigger] points@[i]).vector@.len() as usize,
                    }),
            },
    {
        if points.len() == 0 {
            return Ok(None);
        }
        let mut i: usize = 0;
        while i < points.len()
            invariant
                i <= points@.len(),
                forall|k: int| 0 <= k < i ==> (#[trigger] points@[k]).vector@.len() == self.config.dim,
            decreases points.len() - i,
        {
            if points[i].vector.len() != self.config.dim {
                assert(first_misfit(points@, self.config.dim as nat, i as int));
                return Err(
                    Error::DimensionMismatch {
                        expected: self.config.dim,
                        got: points[i].vector.len(),
                    },
                );
            }
            i = i + 1;
        }
        assert forall|k: int| 0 <= k < point_views(points@).len() implies (
        #[trigger] point_views(points@)[k]).1.vector.len() == self.config.dim by {
            assert(points@[k].vector@.len() == self.config.dim);
        }
        Ok(Some(Op::Upsert { collection: self.name.clone(), points: copy_points(points) }))
    }

    /// The operation to log where points are to be deleted; none if there are no points.
    pub fn delete(&self, ids: &[ExternalId]) -> (r: Option<Op>)
        ensures
            match r {
                None => ids@.len() == 0,
                Some(op) => ids@.len() > 0 && op@ == (OpView::Delete {
                    name: self.name@,
                    ids: id_views(ids@),
                }),
            },
    {
        if ids.len() == 0 {
            return None;
        }
        Some(Op::Delete { collection: self.name.clone(), ids: copy_ids(ids) })
    }

    /// The operation to log where points are to be given a payload; none if there are no
    /// points.
    pub fn set_payload(&self, ids: &[ExternalId], payload: &Json) -> (r: Option<Op>)
        ensures
            match r {
                None => ids@.len() == 0,
                Some(op) => ids@.len() > 0 && op@ == (OpView::Pay {
                    name: self.name@,
                    ids: id_views(ids@),
                    payload: Some(payload@),
                }),
            },
    {
        if ids.len() == 0 {
            return None;
        }
        Some(
            Op::SetPayload {
                collection: self.name.clone(),
                ids: copy_ids(ids),
                payload: payload.clone(),
            },
        )
    }

    /// The operation to log where the payloads of points are to be taken away; none if
    /// there are no points.
    pub fn clear_payload(&self, ids: &[ExternalId]) -> (r: Option<Op>)
        ensures
            match r {
                None => ids@.len() == 0,
                Some(op) => ids@.len() > 0 && op@ == (OpView::Pay {
                    name: self.name@,
                    ids: id_views(ids@),
                    payload: None,
                }),
            },
    {
        if ids.len() == 0 {
            return None;
        }
        Some(Op::ClearPayload { collection: self.name.clone(), ids: copy_ids(ids) })
    }
}

/// Whether point `i` is the first whose vector does not have a dimension.
pub open spec fn first_misfit(points: Seq<Point>, dim: nat, i: int) -> bool {
    &&& points[i].vector@.len() != dim
    &&& forall|k: int| 0 <= k < i ==> (#[trigger] points[k]).vector@.len() == dim
}

/// Where a collection is, from collection `i` on; the number of collections if it is not
/// there.
pub open spec fn coll_from(colls: Seq<Collection>, name: Seq<char>, i: int) -> int
    decreases colls.len() - i,
{
    if i >= colls.len() {
        colls.len() as int
    } else if colls[i].name@ == name {
        i
    } else {
        coll_from(colls, name, i + 1)
    }
}

/// Where a collection is; the number of collections if it is not there.
pub open spec fn coll_at(colls: Seq<Collection>, name: Seq<char>) -> int {
    coll_from(colls, name, 0)
}

/// Whether no two collections have the same name.
pub open spec fn unique(colls: Seq<Collection>) -> bool {
    forall|i: int, j: int|
        0 <= i < j < colls.len() ==> (#[trigger] colls[i]).name@ != (#[trigger] colls[j]).name@
}

/// What the place of a collection says.
pub proof fn lemma_coll_from(colls: Seq<Collection>, name: Seq<char>, i: int)
    requires
        0 <= i <= colls.len(),
    ensures
        i <= coll_from(colls, name, i) <= colls.len(),
        coll_from(colls, name, i) < colls.len() ==> colls[coll_from(colls, name, i)].name@ == name,
        forall|k: int|
            i <= k < coll_from(colls, name, i) ==> (#[trigger] colls[k]).name@ != name,
    decreases colls.len() - i,
{
    if i < colls.len() && colls[i].name@ != name {
        lemma_coll_from(colls, name, i + 1);
    }
}

/// Where names are unique, a collection is where its name is.
pub proof fn lemma_coll_at(colls: Seq<Collection>, i: int)
    requires
        unique(colls),
        0 <= i < colls.len(),
    ensures
        coll_at(colls, colls[i].name@) == i,
{
    lemma_coll_from(colls, colls[i].name@, 0);
    let j = coll_at(colls, colls[i].name@);
    if j < i {
        assert(colls[j].name@ != colls[i].name@);
    }
}

/// What is kept under a name.
pub open spec fn kept_in(colls: Seq<Collection>, name: Seq<char>) -> Option<Kept> {
    if coll_at(colls, name) < colls.len() {
        Some(colls[coll_at(colls, name)].kept())
    } else {
        None
    }
}

/// What is kept under the names, once one collection changed.
pub proof fn lemma_kept_update(colls: Seq<Collection>, i: int, c: Collection, name: Seq<char>)
    requires
        unique(colls),
        0 <= i < colls.len(),
        c.name@ == colls[i].name@,
    ensures
        unique(colls.update(i, c)),
        kept_in(colls.update(i, c), name) == (if name == colls[i].name@ {
            Some(c.kept())
        } else {
            kept_in(colls, name)
        }),
{
    let after = colls.update(i, c);
    assert forall|a: int, b: int| 0 <= a < b < after.len() implies (#[trigger] after[a]).name@ != (
    #[trigger] after[b]).name@ by {
        assert(colls[a].name@ != colls[b].name@);
    }
    lemma_coll_at(colls, i);
    lemma_coll_at(after, i);
    lemma_coll_from(colls, name, 0);
    lemma_coll_from(after, name, 0);
    if name != colls[i].name@ {
        let j = coll_at(colls, name);
        let k = coll_at(after, name);
        if j < colls.len() {
            assert(after[j].name@ == name);
            lemma_coll_at(after, j);
        } else if k < after.len() {
            assert(colls[k].name@ == name);
        }
    }
}

/// What is kept under the names, once a collection came.
pub proof fn lemma_kept_push(colls: Seq<Collection>, c: Collection, name: Seq<char>)
    requires
        unique(colls),
        coll_at(colls, c.name@) == colls.len(),
    ensures
        unique(colls.push(c)),
        kept_in(colls.push(c), name) == (if name == c.name@ {
            Some(c.kept())
        } else {
            kept_in(colls, name)
        }),
{
    let after = colls.push(c);
    lemma_coll_from(colls, c.name@, 0);
    assert forall|a: int, b: int| 0 <= a < b < after.len() implies (#[trigger] after[a]).name@ != (
    #[trigger] after[b]).name@ by {
        if b < colls.len() {
            assert(colls[a].name@ != colls[b].name@);
        } else {
            assert(colls[a].name@ != c.name@);
        }
    }
    lemma_coll_at(after, colls.len() as int);
    lemma_coll_from(colls, name, 0);
    lemma_coll_from(after, name, 0);
    if name != c.name@ {
        let j = coll_at(colls, name);
        let k = coll_at(after, name);
        if j < colls.len() {
            assert(after[j] == colls[j]);
            lemma_coll_at(after, j);
        } else if k < after.len() {
            if k < colls.len() {
                assert(colls[k] == after[k]);
                assert(colls[k].name@ == name);
            }
        }
    }
}

/// What is kept under the names, once a collection went.
pub proof fn lemma_kept_remove(colls: Seq<Collection>, i: int, name: Seq<char>)
    requires
        unique(colls),
        0 <= i < colls.len(),
    ensures
        unique(colls.remove(i)),
        kept_in(colls.remove(i), name) == (if name == colls[i].name@ {
            None
        } else {
            kept_in(colls, name)
        }),
{
    let after = colls.remove(i);
    assert forall|a: int, b: int| 0 <= a < b < after.len() implies (#[trigger] after[a]).name@ != (
    #[trigger] after[b]).name@ by {
        let x = if a < i {
            a
        } else {
            a + 1
        };
        let y = if b < i {
            b
        } else {
            b + 1
        };
        assert(colls[x].name@ != colls[y].name@);
    }
    lemma_coll_from(colls, name, 0);
    lemma_coll_from(after, name, 0);
    let j = coll_at(colls, name);
    let k = coll_at(after, name);
    if name == colls[i].name@ {
        if k < after.len() {
            let x = if k < i {
                k
            } else {
                k + 1
            };
            assert(colls[x].name@ == name);
            if x < i {
                assert(colls[x].name@ != colls[i].name@);
            } else {
                assert(colls[i].name@ != colls[x].name@);
            }
        }
    } else {
        if j < colls.len() {
            let x = if j < i {
                j
            } else {
                j - 1
            };
            assert(after[x] == colls[j]);
            lemma_coll_at(after, x);
        } else if k < after.len() {
            let x = if k < i {
                k
            } else {
                k + 1
            };
            assert(colls[x].name@ == name);
        }
    }
}

/// A name that no collection has.
pub proof fn lemma_kept_none(colls: Seq<Collection>, name: Seq<char>)
    ensures
        kept_in(colls, name) is None <==> coll_at(colls, name) == colls.len(),
        0 <= coll_at(colls, name) <= colls.len(),
{
    lemma_coll_from(colls, name, 0);
}

impl Database {
    /// The collections are valid, and no two have the same name.
    pub open spec fn valid(&self) -> bool {
        &&& unique(self.collections@)
        &&& forall|i: int|
            0 <= i < self.collections@.len() ==> (#[trigger] self.collections@[i]).valid()
    }

    /// No more than one row of an identifier is alive in a collection.
    pub open spec fn apart(&self) -> bool {
        forall|i: int|
            0 <= i < self.collections@.len() ==> (#[trigger] self.collections@[i]).view.apart()
    }

    /// What is kept under a name.
    pub open spec fn kept(&self, name: Seq<char>) -> Option<Kept> {
        kept_in(self.collections@, name)
    }

    /// Where a collection is; the number of collections if it is not there.
    pub(crate) fn find(&self, name: &str) -> (r: usize)
        ensures
            r == coll_at(self.collections@, name@),
            r <= self.collections@.len(),
    {
        let mut i: usize = 0;
        while i < self.collections.len()
            invariant
                i <= self.collections@.len(),
                coll_from(self.collections@, name@, i as int) == coll_at(self.collections@, name@),
            decreases self.collections.len() - i,
        {
            if is_same(self.collections[i].name.as_str(), name) {
                return i;
            }
            i = i + 1;
        }
        i
    }

    /// Whether the log was whole when the database was opened.
    pub fn recovery_clean(&self) -> (r: bool)
        ensures
            r == self.recovery_clean,
    {
        self.recovery_clean
    }

    /// The collection of a name.
    pub fn collection(&self, name: &str) -> (r: Option<&Collection>)
        ensures
            match r {
                Some(c) => coll_at(self.collections@, name@) < self.collections@.len() && *c
                    == self.collections@[coll_at(self.collections@, name@)] && c.name@ == name@
                    && self.kept(name@) == Some(c.kept()),
                None => self.kept(name@) is None,
            },
    {
        proof {
            lemma_kept_none(self.collections@, name@);
            lemma_coll_from(self.collections@, name@, 0);
        }
        let i: usize = self.find(name);
        if i < self.collections.len() {
            Some(&self.collections[i])
        } else {
            None
        }
    }

    /// Checks a collection that is to be made, and gives the operation to log. It fails
    /// where the name is empty, or there is a collection of that name.
    pub fn create_collection(&self, name: &str, config: CollectionConfig) -> (r: Result<Op, Error>)
        ensures
            match r {
                Ok(op) => name@.len() > 0 && self.kept(name@) is None && op@ == (OpView::Create {
                    name: name@,
                    config,
                }),
                Err(e) => if name@.len() == 0 {
                    e == Error::Invalid(Invalid::EmptyName)
                } else {
                    self.kept(name@) is Some && e is CollectionExists && e->CollectionExists_0@
                        == name@
                },
            },
    {
        if name.is_empty() {
            return Err(Error::Invalid(Invalid::EmptyName));
        }
        proof {
            lemma_kept_none(self.collections@, name@);
        }
        if self.find(name) < self.collections.len() {
            return Err(Error::CollectionExists(name.to_owned()));
        }
        Ok(Op::CreateCollection { name: name.to_owned(), config })
    }

    /// Checks a collection that is to be dropped, and gives the operation to log. It fails
    /// where there is no collection of that name.
    pub fn drop_collection(&self, name: &str) -> (r: Result<Op, Error>)
        ensures
            match r {
                Ok(op) => self.kept(name@) is Some && op@ == (OpView::Drop { name: name@ }),
                Err(e) => self.kept(name@) is None && e is CollectionNotFound
                    && e->CollectionNotFound_0@ == name@,
            },
    {
        proof {
            lemma_kept_none(self.collections@, name@);
        }
        if self.find(name) == self.collections.len() {
            return Err(Error::CollectionNotFound(name.to_owned()));
        }
        Ok(Op::DropCollection { name: name.to_owned() })
    }
}

} // verus!
