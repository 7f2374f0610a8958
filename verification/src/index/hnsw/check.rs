//! Whether a graph that was read from a file can be searched.

use vstd::prelude::*;

use crate::index::hnsw::graph::{degree, lemma_degree, tidy, HnswGraph, EMPTY};

verus! {

/// Whether every node of a list is below a bound.
pub open spec fn all_below(nodes: Seq<u32>, n: int) -> bool {
    forall|i: int| 0 <= i < nodes.len() ==> #[trigger] nodes[i] < n
}

fn are_below(nodes: &[u32], n: u32) -> (r: bool)
    ensures
        r == all_below(nodes@, n as int),
{
    let mut i: usize = 0;
    while i < nodes.len()
        invariant
            i <= nodes@.len(),
            forall|k: int| 0 <= k < i ==> #[trigger] nodes@[k] < n,
        decreases nodes.len() - i,
    {
        if nodes[i] >= n {
            return false;
        }
        i = i + 1;
    }
    true
}

fn is_tidy(row: &[u32]) -> (r: bool)
    ensures
        r == tidy(row@),
{
    proof {
        lemma_degree(row@);
    }
    let mut i: usize = 0;
    let mut ended: bool = false;
    while i < row.len()
        invariant
            i <= row@.len(),
            degree(row@) <= row@.len(),
            forall|k: int| 0 <= k < degree(row@) ==> #[trigger] row@[k] != EMPTY,
            degree(row@) < row@.len() ==> row@[degree(row@) as int] == EMPTY,
            ended == (i > degree(row@)),
            forall|k: int| degree(row@) <= k < i ==> #[trigger] row@[k] == EMPTY,
        decreases row.len() - i,
    {
        if row[i] == EMPTY {
            ended = true;
        } else if ended {
            return false;
        }
        i = i + 1;
    }
    true
}

impl HnswGraph {
    /// A node has a tidy row, and its links lead to nodes.
    pub open spec fn node_valid(&self, n: int) -> bool {
        &&& tidy(self.ground(n))
        &&& forall|l: int|
            0 <= l <= self.levels@[n] ==> all_below(#[trigger] self.links_of(n, l), self.count as int)
    }

    fn check_node(&self, node: u32) -> (r: bool)
        requires
            self.levels@.len() == self.count,
            self.upper@.len() == self.count,
            self.layer0@.len() == self.count * self.m0,
            node < self.count,
        ensures
            r == self.node_valid(node as int),
    {
        let n: usize = node as usize;
        proof {
            crate::segment::data::lemma_row_within(node as int, self.count as int, self.m0 as int);
        }
        let len: usize = self.layer0.len();
        let start: usize = n * self.m0;
        let row = vstd::slice::slice_subrange(self.layer0.as_slice(), start, start + self.m0);
        if !is_tidy(row) {
            return false;
        }
        let mut deg: usize = 0;
        while deg < row.len() && row[deg] != EMPTY
            invariant
                deg <= row@.len(),
                forall|k: int| 0 <= k < deg ==> #[trigger] row@[k] != EMPTY,
            decreases row.len() - deg,
        {
            deg = deg + 1;
        }
        proof {
            crate::index::hnsw::graph::lemma_degree_at(row@, deg as int);
        }
        let links = vstd::slice::slice_subrange(row, 0, deg);
        assert(links@ =~= self.links_of(node as int, 0));
        if !are_below(links, self.count) {
            return false;
        }
        let top: usize = self.levels[n] as usize;
        let mut l: usize = 1;
        while l <= top
            invariant
                1 <= l <= top + 1,
                top == self.levels@[node as int],
                n == node,
                self.upper@.len() == self.count,
                node < self.count,
                forall|k: int|
                    0 <= k < l ==> all_below(#[trigger] self.links_of(node as int, k), self.count as int),
            decreases top + 1 - l,
        {
            if l - 1 < self.upper[n].layers.len() {
                if !are_below(self.upper[n].layers[l - 1].as_slice(), self.count) {
                    assert(!all_below(self.links_of(node as int, l as int), self.count as int));
                    return false;
                }
            }
            l = l + 1;
        }
        true
    }

    /// Whether the graph can be searched.
    pub fn is_valid(&self) -> (r: bool)
        ensures
            r == self.valid(),
    {
        if self.count == EMPTY || self.levels.len() != self.count as usize || self.upper.len()
            != self.count as usize {
            return false;
        }
        proof {
            assert(0 <= self.count * self.m0 <= 0xFFFF_FFFF * 0xFFFF_FFFF_FFFF_FFFF)
                by (nonlinear_arith)
                requires
                    0 <= self.count <= 0xFFFF_FFFF,
                    0 <= self.m0 <= 0xFFFF_FFFF_FFFF_FFFF,
            ;
        }
        let table: u128 = self.count as u128 * self.m0 as u128;
        if table != self.layer0.len() as u128 {
            return false;
        }
        if self.entry != EMPTY && self.entry >= self.count {
            return false;
        }
        let mut n: u32 = 0;
        while n < self.count
            invariant
                n <= self.count,
                self.levels@.len() == self.count,
                self.upper@.len() == self.count,
                self.layer0@.len() == self.count * self.m0,
                self.count != EMPTY,
                forall|k: int| 0 <= k < n ==> #[trigger] self.node_valid(k),
            decreases self.count - n,
        {
            if !self.check_node(n) {
                proof {
                    self.lemma_valid_nodes();
                }
                return false;
            }
            n = n + 1;
        }
        proof {
            self.lemma_nodes_valid();
        }
        true
    }

    proof fn lemma_valid_nodes(&self)
        ensures
            self.valid() ==> forall|k: int| 0 <= k < self.count ==> #[trigger] self.node_valid(k),
    {
        if self.valid() {
            assert forall|k: int| 0 <= k < self.count implies #[trigger] self.node_valid(k) by {
                assert(tidy(self.ground(k)));
                assert forall|l: int| 0 <= l <= self.levels@[k] implies all_below(
                    #[trigger] self.links_of(k, l),
                    self.count as int,
                ) by {
                    let row = self.links_of(k, l);
                    assert forall|i: int| 0 <= i < row.len() implies #[trigger] row[i]
                        < self.count by {
                        assert(self@.rows[k][l][i] == row[i]);
                    }
                }
            }
        }
    }

    proof fn lemma_nodes_valid(&self)
        requires
            self.count < EMPTY,
            self.levels@.len() == self.count,
            self.upper@.len() == self.count,
            self.layer0@.len() == self.count * self.m0,
            self.entry == EMPTY || self.entry < self.count,
            forall|k: int| 0 <= k < self.count ==> #[trigger] self.node_valid(k),
        ensures
            self.valid(),
    {
        assert forall|n: int| 0 <= n < self.count implies tidy(#[trigger] self.ground(n)) by {
            assert(self.node_valid(n));
        }
        let v = self@;
        assert forall|n: int, l: int, i: int|
            0 <= n < v.rows.len() && 0 <= l < v.rows[n].len() && 0 <= i
                < v.rows[n][l].len() implies (#[trigger] v.rows[n][l][i]) < v.rows.len() by {
            assert(self.node_valid(n));
            assert(all_below(self.links_of(n, l), self.count as int));
            assert(v.rows[n][l] == self.links_of(n, l));
        }
    }
}

} // verus!
