//! The graph: a compact table of links for the ground layer, and lists of links for
//! the layers above it.

use vstd::prelude::*;

use crate::index::hnsw::params::HnswParams;
use crate::segment::data::{lemma_row_within, lemma_rows_apart};
use crate::index::hnsw::distinct::distinct;

verus! {

/// Marks the end of a row of links, and stands for no node.
pub const EMPTY: u32 = 0xFFFF_FFFF;

/// The links of a node on the layers above the ground layer.
pub struct UpperLinks {
    /// `layers[l - 1]` holds the links on layer `l`.
    pub layers: Vec<Vec<u32>>,
}

/// A graph. Its nodes are the rows of a segment.
pub struct HnswGraph {
    /// The number of nodes.
    pub count: u32,
    /// The most links on a layer above the ground layer.
    pub m: usize,
    /// The most links on the ground layer.
    pub m0: usize,
    /// Where searches start; [`EMPTY`] in an empty graph.
    pub entry: u32,
    /// The highest layer; -1 in an empty graph.
    pub max_level: i32,
    /// The highest layer of each node.
    pub levels: Vec<u8>,
    /// The links of the ground layer, `m0` places for each node.
    pub layer0: Vec<u32>,
    /// The links of the other layers.
    pub upper: Vec<UpperLinks>,
}

/// What a graph is: where searches start, and the links of each node on each of its
/// layers.
#[verifier::ext_equal]
pub struct GraphView {
    /// Where searches start.
    pub entry: u32,
    /// The highest layer.
    pub top: int,
    /// `rows[n][l]` are the links of node `n` on layer `l`.
    pub rows: Seq<Seq<Seq<u32>>>,
}

impl GraphView {
    /// The links of a node on a layer; none on a layer that it does not reach.
    pub open spec fn nbrs(&self, n: int, l: int) -> Seq<u32> {
        if 0 <= l < self.rows[n].len() {
            self.rows[n][l]
        } else {
            Seq::empty()
        }
    }

    /// The graph with other links at one place.
    pub open spec fn with_row(self, n: int, l: int, links: Seq<u32>) -> GraphView {
        GraphView { rows: self.rows.update(n, self.rows[n].update(l, links)), ..self }
    }

    /// The graph with a node that has layers up to `level`, and no links on them.
    pub open spec fn raised(self, n: int, level: nat) -> GraphView {
        GraphView {
            rows: self.rows.update(n, Seq::new(level + 1, |l: int| Seq::<u32>::empty())),
            ..self
        }
    }

    /// Every link leads to a node.
    pub open spec fn sound(&self) -> bool {
        &&& self.entry == EMPTY || self.entry < self.rows.len()
        &&& forall|n: int, l: int, i: int|
            0 <= n < self.rows.len() && 0 <= l < self.rows[n].len() && 0 <= i
                < self.rows[n][l].len() ==> (#[trigger] self.rows[n][l][i]) < self.rows.len()
    }

    /// Every link leads to a node that reaches the layer of the link, and no node has
    /// more links than it may.
    pub open spec fn layered(&self, m: nat, m0: nat) -> bool {
        &&& forall|n: int, l: int, i: int|
            0 <= n < self.rows.len() && 0 <= l < self.rows[n].len() && 0 <= i
                < self.rows[n][l].len() ==> self.rows[#[trigger] self.rows[n][l][i] as int].len()
                > l
        &&& forall|n: int, l: int|
            0 <= n < self.rows.len() && 0 <= l < self.rows[n].len() ==> (
            #[trigger] self.rows[n][l]).len() <= (if l == 0 {
                m0
            } else {
                m
            })
        &&& forall|n: int| 0 <= n < self.rows.len() ==> 1 <= (#[trigger] self.rows[n]).len() <= 33
    }

    /// Searches start at a node of the highest layer.
    pub open spec fn crowned(&self) -> bool {
        &&& self.entry == EMPTY ==> self.top == -1
        &&& forall|n: int|
            0 <= n < self.rows.len() && self.entry == EMPTY ==> (#[trigger] self.rows[n]).len() == 1
        &&& self.entry != EMPTY ==> self.rows[self.entry as int].len() == self.top + 1
        &&& forall|n: int|
            0 <= n < self.rows.len() && self.entry != EMPTY ==> (#[trigger] self.rows[n]).len()
                <= self.top + 1
    }
}

/// How many links a row holds before its end.
pub open spec fn degree(row: Seq<u32>) -> nat
    decreases row.len(),
{
    if row.len() == 0 || row[0] == EMPTY {
        0
    } else {
        1 + degree(row.drop_first())
    }
}

/// Nothing stands behind the end of a row.
pub open spec fn tidy(row: Seq<u32>) -> bool {
    forall|i: int| degree(row) <= i < row.len() ==> #[trigger] row[i] == EMPTY
}

/// The degree of a row, from where its end is.
pub proof fn lemma_degree_at(row: Seq<u32>, k: int)
    requires
        0 <= k <= row.len(),
        forall|i: int| 0 <= i < k ==> #[trigger] row[i] != EMPTY,
        k < row.len() ==> row[k] == EMPTY,
    ensures
        degree(row) == k,
    decreases row.len(),
{
    if k > 0 {
        assert(row[0] != EMPTY);
        let rest = row.drop_first();
        assert forall|i: int| 0 <= i < k - 1 implies #[trigger] rest[i] != EMPTY by {
            assert(rest[i] == row[i + 1]);
        }
        lemma_degree_at(rest, k - 1);
    }
}

/// What the degree of a row says of the row.
pub proof fn lemma_degree(row: Seq<u32>)
    ensures
        degree(row) <= row.len(),
        forall|i: int| 0 <= i < degree(row) ==> #[trigger] row[i] != EMPTY,
        degree(row) < row.len() ==> row[degree(row) as int] == EMPTY,
    decreases row.len(),
{
    if row.len() > 0 && row[0] != EMPTY {
        let rest = row.drop_first();
        lemma_degree(rest);
        assert forall|i: int| 0 <= i < degree(row) implies #[trigger] row[i] != EMPTY by {
            if i > 0 {
                assert(rest[i - 1] == row[i]);
            }
        }
        if degree(row) < row.len() {
            assert(rest[degree(rest) as int] == row[degree(row) as int]);
        }
    }
}

impl View for HnswGraph {
    type V = GraphView;

    open spec fn view(&self) -> GraphView {
        GraphView {
            entry: self.entry,
            top: self.max_level as int,
            rows: Seq::new(
                self.count as nat,
                |n: int| Seq::new((self.levels@[n] + 1) as nat, |l: int| self.links_of(n, l)),
            ),
        }
    }
}

impl HnswGraph {
    /// The places of a node in the table of the ground layer.
    pub open spec fn ground(&self, n: int) -> Seq<u32> {
        self.layer0@.subrange(n * self.m0, n * self.m0 + self.m0)
    }

    /// The places of a node on a layer.
    pub open spec fn places(&self, n: int, l: int) -> Seq<u32> {
        if l == 0 {
            self.ground(n)
        } else if 0 < l <= self.levels@[n] && l - 1 < self.upper@[n].layers@.len() {
            self.upper@[n].layers@[l - 1]@
        } else {
            Seq::empty()
        }
    }

    /// The links of a node on a layer.
    pub open spec fn links_of(&self, n: int, l: int) -> Seq<u32> {
        if l == 0 {
            self.ground(n).take(degree(self.ground(n)) as int)
        } else {
            self.places(n, l)
        }
    }

    /// The tables have a place for everything.
    pub open spec fn shaped(&self) -> bool {
        &&& self.count < EMPTY
        &&& self.levels@.len() == self.count
        &&& self.upper@.len() == self.count
        &&& self.layer0@.len() == self.count * self.m0
        &&& forall|n: int| 0 <= n < self.count ==> tidy(#[trigger] self.ground(n))
    }

    /// The graph can be searched: every link leads to a node.
    pub open spec fn valid(&self) -> bool {
        &&& self.shaped()
        &&& self@.sound()
    }

    /// Every node has a list for each of its layers.
    pub open spec fn filled(&self) -> bool {
        forall|n: int|
            0 <= n < self.count ==> (#[trigger] self.upper@[n]).layers@.len() == self.levels@[n]
    }

    /// A graph as the insertion of nodes leaves it: no node has two links to the same node on a
    /// layer, or one to itself.
    pub open spec fn built(&self) -> bool {
        &&& self.valid()
        &&& self.filled()
        &&& distinct(self@)
        &&& self@.layered(self.m as nat, self.m0 as nat)
        &&& self@.crowned()
    }

    /// A graph of `count` nodes without any links.
    pub fn new(count: u32, params: &HnswParams) -> (r: Self)
        requires
            count < EMPTY,
            count * params.m0 <= usize::MAX,
        ensures
            r.built(),
            r.count == count,
            r.m == params.m,
            r.m0 == params.m0,
            r@ == blank(count as nat),
    {
        let m0: usize = params.m0;
        let total: usize = count as usize * m0;
        let mut levels: Vec<u8> = Vec::new();
        let mut upper: Vec<UpperLinks> = Vec::new();
        let mut i: u32 = 0;
        while i < count
            invariant
                i <= count,
                levels.len() == i,
                upper.len() == i,
                forall|n: int| 0 <= n < i ==> #[trigger] levels@[n] == 0,
                forall|n: int| 0 <= n < i ==> (#[trigger] upper@[n]).layers@.len() == 0,
            decreases count - i,
        {
            levels.push(0);
            upper.push(UpperLinks { layers: Vec::new() });
            i = i + 1;
        }
        let mut layer0: Vec<u32> = Vec::new();
        let mut j: usize = 0;
        while j < total
            invariant
                j <= total,
                layer0.len() == j,
                forall|n: int| 0 <= n < j ==> #[trigger] layer0@[n] == EMPTY,
            decreases total - j,
        {
            layer0.push(EMPTY);
            j = j + 1;
        }
        let r = HnswGraph {
            count,
            m: params.m,
            m0,
            entry: EMPTY,
            max_level: -1,
            levels,
            layer0,
            upper,
        };
        proof {
            assert forall|n: int| 0 <= n < count implies degree(#[trigger] r.ground(n)) == 0 by {
                lemma_row_within(n, count as int, m0 as int);
                let row = r.ground(n);
                if row.len() > 0 {
                    assert(row[0] == r.layer0@[n * m0]);
                }
            }
            assert forall|n: int| 0 <= n < count implies tidy(#[trigger] r.ground(n)) by {
                lemma_row_within(n, count as int, m0 as int);
                let row = r.ground(n);
                assert forall|k: int| 0 <= k < row.len() implies #[trigger] row[k] == EMPTY by {
                    assert(row[k] == r.layer0@[n * m0 + k]);
                }
            }
            assert(r@ =~~= blank(count as nat));
            assert forall|n: int| 0 <= n < r@.rows.len() implies (#[trigger] r@.rows[n]).len()
                == 1 by {}
        }
        r
    }

    /// The places of a node on a layer: its links, then on the ground layer
    /// [`EMPTY`] up to the end.
    pub fn links(&self, node: u32, level: i32) -> (r: &[u32])
        requires
            self.shaped(),
            node < self.count,
            level >= 0,
        ensures
            r@ == self.places(node as int, level as int),
    {
        let n: usize = node as usize;
        if level == 0 {
            proof {
                lemma_row_within(node as int, self.count as int, self.m0 as int);
            }
            let len: usize = self.layer0.len();
            let start: usize = n * self.m0;
            return vstd::slice::slice_subrange(self.layer0.as_slice(), start, start + self.m0);
        }
        let l: usize = (level - 1) as usize;
        if (self.levels[n] as i32) < level || l >= self.upper[n].layers.len() {
            return no_links();
        }
        self.upper[n].layers[l].as_slice()
    }

    /// Gives a node that has no links yet its layers.
    pub fn raise(&mut self, node: u32, level: u32)
        requires
            old(self).shaped(),
            old(self).filled(),
            node < old(self).count,
            level <= 32,
            old(self)@.rows[node as int] == seq![Seq::<u32>::empty()],
        ensures
            final(self).shaped(),
            final(self).filled(),
            final(self).count == old(self).count,
            final(self).m == old(self).m,
            final(self).m0 == old(self).m0,
            final(self).levels@ == old(self).levels@.update(node as int, level as u8),
            final(self).entry == old(self).entry,
            final(self).max_level == old(self).max_level,
            final(self)@ == old(self)@.raised(node as int, level as nat),
    {
        let n: usize = node as usize;
        let mut layers: Vec<Vec<u32>> = Vec::new();
        let mut l: u32 = 0;
        while l < level
            invariant
                l <= level,
                layers.len() == l,
                forall|k: int| 0 <= k < l ==> (#[trigger] layers@[k])@.len() == 0,
            decreases level - l,
        {
            layers.push(Vec::new());
            l = l + 1;
        }
        assert(self@.rows[node as int][0] == Seq::<u32>::empty());
        self.levels.set(n, level as u8);
        self.upper.set(n, UpperLinks { layers });
        proof {
            let target = old(self)@.raised(node as int, level as nat);
            assert forall|k: int| 0 <= k < self.count implies tidy(#[trigger] self.ground(k)) by {
                assert(self.ground(k) == old(self).ground(k));
            }
            assert forall|k: int| 0 <= k < self.count implies (
            #[trigger] self.upper@[k]).layers@.len() == self.levels@[k] by {
                if k != node {
                    assert(self.upper@[k] == old(self).upper@[k]);
                }
            }
            assert forall|k: int| 0 <= k < self.count implies #[trigger] self@.rows[k]
                =~= target.rows[k] by {
                assert(self.ground(k) == old(self).ground(k));
                assert forall|l: int| 0 <= l < self@.rows[k].len() implies #[trigger] self@.rows[k][l]
                    == target.rows[k][l] by {
                    if k == node {
                        if l == 0 {
                            assert(old(self)@.rows[k][0] == old(self).links_of(k, 0));
                        } else {
                            assert(self.links_of(k, l) =~= Seq::<u32>::empty());
                        }
                    } else {
                        assert(self.links_of(k, l) == old(self).links_of(k, l));
                    }
                }
            }
            assert(self@ =~= target);
        }
    }

    /// How many links a node has on a layer.
    pub fn links_len(&self, node: u32, level: i32) -> (r: usize)
        requires
            self.shaped(),
            node < self.count,
            level >= 0,
        ensures
            r == self.links_of(node as int, level as int).len(),
    {
        let row = self.links(node, level);
        if level == 0 {
            proof {
                lemma_degree(row@);
            }
            row_degree(row)
        } else {
            row.len()
        }
    }

    /// The links of a node on a layer.
    pub fn neighbours(&self, node: u32, level: i32) -> (r: &[u32])
        requires
            self.shaped(),
            node < self.count,
            level >= 0,
        ensures
            r@ == self@.nbrs(node as int, level as int),
    {
        let row = self.links(node, level);
        if level == 0 {
            proof {
                lemma_degree(row@);
            }
            let deg: usize = row_degree(row);
            let r = vstd::slice::slice_subrange(row, 0, deg);
            assert(r@ =~= self@.nbrs(node as int, 0));
            r
        } else {
            assert(row@ =~= self@.nbrs(node as int, level as int));
            row
        }
    }

    /// Gives a node other links on one of its layers.
    pub fn set_links(&mut self, node: u32, level: i32, links: &[u32])
        requires
            old(self).shaped(),
            old(self).filled(),
            node < old(self).count,
            0 <= level <= old(self).levels@[node as int],
            level == 0 ==> links@.len() <= old(self).m0,
            forall|i: int| 0 <= i < links@.len() ==> #[trigger] links@[i] != EMPTY,
        ensures
            final(self).shaped(),
            final(self).filled(),
            final(self).count == old(self).count,
            final(self).m == old(self).m,
            final(self).m0 == old(self).m0,
            final(self).levels == old(self).levels,
            final(self).entry == old(self).entry,
            final(self).max_level == old(self).max_level,
            final(self)@ == old(self)@.with_row(node as int, level as int, links@),
    {
        let n: usize = node as usize;
        if level == 0 {
            proof {
                lemma_row_within(node as int, self.count as int, self.m0 as int);
            }
            let len: usize = self.layer0.len();
            let start: usize = n * self.m0;
            let mut i: usize = 0;
            while i < self.m0
                invariant
                    i <= self.m0,
                    len == self.layer0@.len(),
                    start == node * self.m0,
                    start + self.m0 <= len,
                    self.layer0@.len() == old(self).layer0@.len(),
                    self.count == old(self).count,
                    self.m == old(self).m,
                    self.m0 == old(self).m0,
                    self.levels == old(self).levels,
                    self.upper == old(self).upper,
                    self.entry == old(self).entry,
                    self.max_level == old(self).max_level,
                    forall|k: int|
                        0 <= k < len && !(start <= k < start + i) ==> #[trigger] self.layer0@[k]
                            == old(self).layer0@[k],
                    forall|k: int|
                        start <= k < start + i ==> #[trigger] self.layer0@[k] == (if k - start
                            < links@.len() {
                            links@[k - start]
                        } else {
                            EMPTY
                        }),
                decreases self.m0 - i,
            {
                let v: u32 = if i < links.len() {
                    links[i]
                } else {
                    EMPTY
                };
                self.layer0.set(start + i, v);
                i = i + 1;
            }
            proof {
                self.lemma_ground_changed(*old(self), node as int, links@);
            }
        } else {
            let l: usize = (level - 1) as usize;
            let list: Vec<u32> = vstd::slice::slice_to_vec(links);
            self.upper[n].layers[l] = list;
            proof {
                self.lemma_upper_changed(*old(self), node as int, level as int, links@);
            }
        }
    }

    /// Adds a link to a node that has room for it on a layer.
    pub fn push_link(&mut self, node: u32, level: i32, target: u32)
        requires
            old(self).shaped(),
            old(self).filled(),
            node < old(self).count,
            0 <= level <= old(self).levels@[node as int],
            level == 0 ==> old(self).links_of(node as int, 0).len() < old(self).m0,
            target != EMPTY,
        ensures
            final(self).shaped(),
            final(self).filled(),
            final(self).count == old(self).count,
            final(self).m == old(self).m,
            final(self).m0 == old(self).m0,
            final(self).levels == old(self).levels,
            final(self).entry == old(self).entry,
            final(self).max_level == old(self).max_level,
            final(self)@ == old(self)@.with_row(
                node as int,
                level as int,
                old(self)@.nbrs(node as int, level as int).push(target),
            ),
    {
        let n: usize = node as usize;
        if level == 0 {
            let ghost row = self.ground(node as int);
            proof {
                lemma_row_within(node as int, self.count as int, self.m0 as int);
                lemma_degree(row);
            }
            let len: usize = self.layer0.len();
            let start: usize = n * self.m0;
            let deg: usize = self.links_len(node, 0);
            self.layer0.set(start + deg, target);
            proof {
                let links = row.take(degree(row) as int).push(target);
                assert forall|k: int| start <= k < start + self.m0 implies #[trigger] self.layer0@[k]
                    == (if k - start < links.len() {
                    links[k - start]
                } else {
                    EMPTY
                }) by {
                    assert(row[k - start] == old(self).layer0@[k]);
                }
                assert forall|i: int| 0 <= i < links.len() implies #[trigger] links[i] != EMPTY by {}
                self.lemma_ground_changed(*old(self), node as int, links);
                assert(old(self)@.nbrs(node as int, 0) == row.take(degree(row) as int));
            }
        } else {
            let l: usize = (level - 1) as usize;
            self.upper[n].layers[l].push(target);
            proof {
                let links = old(self)@.nbrs(node as int, level as int).push(target);
                self.lemma_upper_changed(*old(self), node as int, level as int, links);
            }
        }
    }

    proof fn lemma_ground_changed(&self, before: HnswGraph, n: int, links: Seq<u32>)
        requires
            before.shaped(),
            before.filled(),
            0 <= n < before.count,
            links.len() <= before.m0,
            forall|i: int| 0 <= i < links.len() ==> #[trigger] links[i] != EMPTY,
            self.count == before.count,
            self.m == before.m,
            self.m0 == before.m0,
            self.levels == before.levels,
            self.upper == before.upper,
            self.entry == before.entry,
            self.max_level == before.max_level,
            self.layer0@.len() == before.layer0@.len(),
            forall|k: int|
                0 <= k < before.layer0@.len() && !(n * self.m0 <= k < n * self.m0 + self.m0)
                    ==> #[trigger] self.layer0@[k] == before.layer0@[k],
            forall|k: int|
                n * self.m0 <= k < n * self.m0 + self.m0 ==> #[trigger] self.layer0@[k] == (if k - n
                    * self.m0 < links.len() {
                    links[k - n * self.m0]
                } else {
                    EMPTY
                }),
        ensures
            self.shaped(),
            self.filled(),
            self@ == before@.with_row(n, 0, links),
    {
        lemma_row_within(n, self.count as int, self.m0 as int);
        let row = self.ground(n);
        let start = n * self.m0;
        assert forall|i: int| 0 <= i < row.len() implies #[trigger] row[i] == (if i < links.len() {
            links[i]
        } else {
            EMPTY
        }) by {
            assert(row[i] == self.layer0@[start + i]);
        }
        lemma_degree_at(row, links.len() as int);
        assert(row.take(degree(row) as int) =~= links);
        assert forall|k: int| 0 <= k < self.count && k != n implies #[trigger] self.ground(k)
            == before.ground(k) by {
            lemma_row_within(k, self.count as int, self.m0 as int);
            if k < n {
                lemma_rows_apart(k, n, self.m0 as int);
            } else {
                lemma_rows_apart(n, k, self.m0 as int);
            }
            assert(self.ground(k) =~= before.ground(k));
        }
        assert forall|k: int| 0 <= k < self.count implies tidy(#[trigger] self.ground(k)) by {
            if k != n {
                assert(tidy(before.ground(k)));
            }
        }
        let target = before@.with_row(n, 0, links);
        assert(self@.rows.len() == target.rows.len());
        assert forall|k: int| 0 <= k < self.count implies #[trigger] self@.rows[k]
            =~= target.rows[k] by {
            assert forall|l: int| 0 <= l < self@.rows[k].len() implies #[trigger] self@.rows[k][l]
                == target.rows[k][l] by {
                if k == n && l == 0 {
                } else {
                    assert(self.links_of(k, l) == before.links_of(k, l));
                }
            }
        }
        assert(self@ =~= target);
    }

    proof fn lemma_upper_changed(&self, before: HnswGraph, n: int, level: int, links: Seq<u32>)
        requires
            before.shaped(),
            before.filled(),
            0 <= n < before.count,
            0 < level <= before.levels@[n],
            self.count == before.count,
            self.m == before.m,
            self.m0 == before.m0,
            self.levels == before.levels,
            self.layer0 == before.layer0,
            self.entry == before.entry,
            self.max_level == before.max_level,
            self.upper@.len() == before.upper@.len(),
            self.upper@[n].layers@.len() == before.upper@[n].layers@.len(),
            self.upper@[n].layers@[level - 1]@ == links,
            forall|l: int|
                0 <= l < before.upper@[n].layers@.len() && l != level - 1
                    ==> #[trigger] self.upper@[n].layers@[l] == before.upper@[n].layers@[l],
            forall|k: int|
                0 <= k < before.upper@.len() && k != n ==> #[trigger] self.upper@[k]
                    == before.upper@[k],
        ensures
            self.shaped(),
            self.filled(),
            self@ == before@.with_row(n, level, links),
    {
        assert forall|k: int| 0 <= k < self.count implies tidy(#[trigger] self.ground(k)) by {
            assert(self.ground(k) == before.ground(k));
        }
        assert forall|k: int| 0 <= k < self.count implies (
        #[trigger] self.upper@[k]).layers@.len() == self.levels@[k] by {
            assert(before.upper@[k].layers@.len() == before.levels@[k]);
        }
        let target = before@.with_row(n, level, links);
        assert(self@.rows.len() == target.rows.len());
        assert forall|k: int| 0 <= k < self.count implies #[trigger] self@.rows[k]
            =~= target.rows[k] by {
            assert forall|l: int| 0 <= l < self@.rows[k].len() implies #[trigger] self@.rows[k][l]
                == target.rows[k][l] by {
                if k == n && l == level {
                } else {
                    assert(self.ground(k) == before.ground(k));
                    if k == n && l > 0 {
                        assert(self.upper@[n].layers@[l - 1] == before.upper@[n].layers@[l - 1]);
                    }
                    assert(self.links_of(k, l) == before.links_of(k, l));
                }
            }
        }
        assert(self@ =~= target);
    }
}

/// The graph of `n` nodes without any links.
pub open spec fn blank(n: nat) -> GraphView {
    GraphView {
        entry: EMPTY,
        top: -1,
        rows: Seq::new(n, |i: int| seq![Seq::<u32>::empty()]),
    }
}

fn no_links<'a>() -> (r: &'a [u32])
    ensures
        r@ == Seq::<u32>::empty(),
{
    let r: &'static [u32] = &[];
    assert(r@ =~= Seq::<u32>::empty());
    r
}

/// How many links a row holds before its end.
fn row_degree(row: &[u32]) -> (r: usize)
    ensures
        r == degree(row@),
{
    let mut i: usize = 0;
    while i < row.len() && row[i] != EMPTY
        invariant
            i <= row.len(),
            forall|k: int| 0 <= k < i ==> #[trigger] row@[k] != EMPTY,
        decreases row.len() - i,
    {
        i = i + 1;
    }
    proof {
        lemma_degree_at(row@, i as int);
    }
    i
}

} // verus!
