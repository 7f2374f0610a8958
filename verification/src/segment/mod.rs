//! Segments: where a collection keeps its points.
//!
//! A collection is one mutable segment, which takes all writes, and any number of
//! immutable ones, which a flush leaves behind. Deleting a point of an immutable
//! segment marks its row, and setting its payload lays a new one over the old.

pub mod data;
pub mod files;
pub mod immutable;
pub mod mutable;
pub mod overlay;

use vstd::prelude::*;

use crate::id::{ExternalId, IdView};
use crate::json::{Json, JsonView};

verus! {

/// A point: an identifier, a vector and perhaps a payload.
#[derive(Debug)]
pub struct Point {
    /// The identifier.
    pub id: ExternalId,
    /// The vector, as patterns of single-precision numbers.
    pub vector: Vec<u32>,
    /// The payload.
    pub payload: Option<Json>,
}

/// What a collection keeps of a point, apart from its identifier.
pub struct Entry {
    /// The vector.
    pub vector: Seq<u32>,
    /// The payload.
    pub payload: Option<JsonView>,
}

/// A row of a segment.
pub struct Row {
    /// The identifier.
    pub id: IdView,
    /// The vector.
    pub vector: Seq<u32>,
    /// The norm of the vector.
    pub norm: u32,
    /// The payload.
    pub payload: Option<JsonView>,
}

impl Row {
    /// What the row keeps of its point.
    pub open spec fn entry(self) -> Entry {
        Entry { vector: self.vector, payload: self.payload }
    }
}

/// What a payload is.
pub open spec fn payload_view(p: Option<Json>) -> Option<JsonView> {
    match p {
        Some(v) => Some(v@),
        None => None,
    }
}

/// A copy of a payload.
pub fn copy_payload(p: &Option<Json>) -> (r: Option<Json>)
    ensures
        payload_view(r) == payload_view(*p),
{
    match p {
        Some(v) => Some(v.clone()),
        None => None,
    }
}

/// A copy of a vector.
pub fn copy_vector(v: &[u32]) -> (r: Vec<u32>)
    ensures
        r@ == v@,
{
    vstd::slice::slice_to_vec(v)
}

impl Point {
    /// What the point holds.
    pub open spec fn entry(&self) -> Entry {
        Entry { vector: self.vector@, payload: payload_view(self.payload) }
    }

    /// The row that holds the point.
    pub open spec fn row(&self, norm: u32) -> Row {
        Row {
            id: self.id@,
            vector: self.vector@,
            norm,
            payload: payload_view(self.payload),
        }
    }

    /// A point.
    pub fn new(id: ExternalId, vector: Vec<u32>, payload: Option<Json>) -> (r: Self)
        ensures
            r.id == id,
            r.vector == vector,
            r.payload == payload,
    {
        Point { id, vector, payload }
    }
}

impl Clone for Point {
    fn clone(&self) -> (r: Self)
        ensures
            r.id@ == self.id@,
            r.entry() == self.entry(),
    {
        Point {
            id: self.id.clone(),
            vector: copy_vector(self.vector.as_slice()),
            payload: copy_payload(&self.payload),
        }
    }
}

/// Whether a map leads from the identifier of each row to the number of the row, and
/// from no other identifier. No two rows then have the same identifier.
pub open spec fn indexed(rows: Seq<Row>, index: Map<IdView, u32>) -> bool {
    &&& forall|i: int|
        0 <= i < rows.len() ==> index.contains_key((#[trigger] rows[i]).id) && index[rows[i].id]
            == i
    &&& forall|id: IdView| #[trigger]
        index.contains_key(id) ==> index[id] < rows.len() && rows[index[id] as int].id == id
}

/// The points of a segment that are alive: those of the rows that are not dead.
pub open spec fn live_of(rows: Seq<Row>, index: Map<IdView, u32>, dead: Set<u32>) -> Map<
    IdView,
    Entry,
> {
    Map::new(
        |id: IdView| index.contains_key(id) && !dead.contains(index[id]),
        |id: IdView| rows[index[id] as int].entry(),
    )
}

/// The rows of a segment, where each identifier has its row, and which rows are dead.
#[verifier::ext_equal]
pub struct Table {
    /// The rows.
    pub rows: Seq<Row>,
    /// The number of the row of each identifier.
    pub index: Map<IdView, u32>,
    /// The numbers of the dead rows.
    pub dead: Set<u32>,
}

impl Table {
    /// The table once a row was written: over the row of its identifier, which is alive
    /// afterwards, or else behind all rows.
    pub open spec fn put(self, row: Row) -> Table {
        if self.index.contains_key(row.id) {
            Table {
                rows: self.rows.update(self.index[row.id] as int, row),
                index: self.index,
                dead: self.dead.remove(self.index[row.id]),
            }
        } else {
            Table {
                rows: self.rows.push(row),
                index: self.index.insert(row.id, self.rows.len() as u32),
                dead: self.dead,
            }
        }
    }

    /// The table once some rows were written, one after the other.
    pub open spec fn put_all(self, rows: Seq<Row>) -> Table
        decreases rows.len(),
    {
        if rows.len() == 0 {
            self
        } else {
            self.put_all(rows.drop_last()).put(rows.last())
        }
    }
}

/// Whether the dead rows are rows.
pub open spec fn dead_within(dead: Set<u32>, n: nat) -> bool {
    forall|i: u32| #[trigger] dead.contains(i) ==> i < n
}

/// There are as many live points as there are rows that are not dead.
pub proof fn lemma_live_len(rows: Seq<Row>, index: Map<IdView, u32>, dead: Set<u32>)
    requires
        indexed(rows, index),
        dead_within(dead, rows.len()),
        rows.len() <= u32::MAX,
    ensures
        live_of(rows, index, dead).dom().finite(),
        dead.finite(),
        live_of(rows, index, dead).len() == rows.len() - dead.len(),
        dead.len() <= rows.len(),
{
    let n = rows.len();
    let all = Set::<u32>::range(0, n as u32);
    vstd::set_lib::range_set_properties(0u32, n as u32);
    crate::bitmap::lemma_rows_below(dead, n);
    let alive = all.difference(dead);
    vstd::set_lib::lemma_set_subset_finite(all, alive);
    assert(all =~= alive.union(dead));
    assert(alive.disjoint(dead));
    vstd::set_lib::lemma_set_disjoint_lens(alive, dead);
    let f = |i: u32| rows[i as int].id;
    let dom = live_of(rows, index, dead).dom();
    assert(alive.map(f) =~= dom) by {
        assert forall|id: IdView| #[trigger] dom.contains(id) implies alive.map(f).contains(
            id,
        ) by {
            assert(alive.contains(index[id]) && f(index[id]) == id);
        }
        assert forall|id: IdView| #[trigger] alive.map(f).contains(id) implies dom.contains(
            id,
        ) by {
            let i = choose|i: u32| alive.contains(i) && f(i) == id;
            assert(index[rows[i as int].id] == i);
        }
    }
    assert(vstd::relations::injective_on(f, alive)) by {
        assert forall|a: u32, b: u32|
            alive.contains(a) && alive.contains(b) && #[trigger] f(a) == #[trigger] f(
                b,
            ) implies a == b by {
            assert(index[rows[a as int].id] == a && index[rows[b as int].id] == b);
        }
    }
    vstd::set_lib::lemma_map_size(alive, dom, f);
}

} // verus!
