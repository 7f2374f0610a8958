//! Adding a node to the graph.

use vstd::prelude::*;

use crate::float::{below, law_orders_agree, rank};
use crate::index::hnsw::graph::{tidy, GraphView, HnswGraph, EMPTY};
use crate::index::hnsw::mesh::{lemma_found_mesh, lemma_joined_mesh, meshed};
use crate::index::hnsw::params::HnswParams;
use crate::index::hnsw::rng::{
    advanced, drawn, law_top_layer_unique, sample_level, top_layer, upper24, Rng,
};
use crate::index::hnsw::traversal::{
    chosen, descended, descends, finds, found_on, greedy_descend, ids_of, is_path,
    law_chosen_neighbours, lemma_chosen, query_key, reachable, row_key, search_ends, search_layer,
    select_heuristic, Ctx,
};
use crate::index::queue::{by_key, law_sorted_by_key, lemma_by_key_items, sort_by_key, Near};
use crate::index::{admitted, AllRows};
use crate::kernel::{Kernel, Metric};
use crate::segment::data::SegmentCore;
use crate::index::hnsw::distinct::{
    distinct, lemma_found_distinct, lemma_joined_distinct, lemma_walk_avoids, proper_row, unlinked,
};

verus! {

/// The highest layer that any node may have.
pub const MAX_LEVEL: u32 = 32;

/// The filter that every node passes.
pub open spec fn everything() -> spec_fn(u32) -> bool {
    |x: u32| true
}

/// Some nodes with their keys for a node.
pub open spec fn around(between: spec_fn(u32, u32) -> u32, n: u32, nodes: Seq<u32>) -> Seq<Near> {
    Seq::new(nodes.len(), |i: int| Near { id: nodes[i], key: between(n, nodes[i]) })
}

/// The graph once node `n` has a link to `idx` on a layer. A node that has as many
/// links as it may chooses anew among them and `idx`.
pub open spec fn linked(
    g: GraphView,
    between: spec_fn(u32, u32) -> u32,
    n: u32,
    l: int,
    idx: u32,
    cap: nat,
) -> GraphView {
    let row = g.nbrs(n as int, l);
    if row.len() < cap {
        g.with_row(n as int, l, row.push(idx))
    } else {
        g.with_row(n as int, l, chosen(between, by_key(around(between, n, row.push(idx))), cap))
    }
}

/// The graph once each of some nodes, one after the other, has a link to `idx`.
pub open spec fn linked_all(
    g: GraphView,
    between: spec_fn(u32, u32) -> u32,
    nodes: Seq<u32>,
    l: int,
    idx: u32,
    cap: nat,
) -> GraphView
    decreases nodes.len(),
{
    if nodes.len() == 0 {
        g
    } else {
        linked(linked_all(g, between, nodes.drop_last(), l, idx, cap), between, nodes.last(), l, idx, cap)
    }
}

/// The graph once `idx` is connected on a layer, given what a search of the layer
/// found: it links to the chosen ones among them, and they link back.
pub open spec fn joined(
    g: GraphView,
    between: spec_fn(u32, u32) -> u32,
    cands: Seq<Near>,
    l: int,
    idx: u32,
    cap: nat,
) -> GraphView {
    let sel = chosen(between, cands, cap);
    linked_all(g.with_row(idx as int, l, sel), between, sel, l, idx, cap)
}

/// The graph once `idx` is connected on the layers from `l` down. The search of each layer
/// starts from what the search of the layer above found.
pub open spec fn joined_down(
    g: GraphView,
    between: spec_fn(u32, u32) -> u32,
    idx: u32,
    eps: Seq<u32>,
    l: int,
    params: HnswParams,
    key: spec_fn(u32) -> u32,
) -> GraphView
    decreases l + 1,
{
    if l < 0 {
        g
    } else {
        let cands = found_on(g, key, everything(), l, eps, breadth(params));
        joined_down(
            joined(g, between, cands, l, idx, params.cap(l)),
            between,
            idx,
            ids_of(cands),
            l - 1,
            params,
            key,
        )
    }
}

/// How many candidates are kept while building.
pub open spec fn breadth(params: HnswParams) -> nat {
    if params.ef_construct < 1 {
        1
    } else {
        params.ef_construct as nat
    }
}

/// Where descents on the layers from `hi` down to just above `lo` lead, from a node.
pub open spec fn fallen(
    g: GraphView,
    key: spec_fn(u32) -> u32,
    from: u32,
    hi: int,
    lo: int,
) -> u32
    decreases hi - lo,
{
    if hi <= lo {
        from
    } else {
        fallen(g, key, descended(g, key, hi, from), hi - 1, lo)
    }
}

/// The lesser of two numbers.
pub open spec fn lesser(a: int, b: int) -> int {
    if a < b {
        a
    } else {
        b
    }
}

/// The graph once the node `idx` is added, with layers up to `level`.
#[verifier::opaque]
pub open spec fn with_node(
    g: GraphView,
    between: spec_fn(u32, u32) -> u32,
    key: spec_fn(u32) -> u32,
    idx: u32,
    level: int,
    params: HnswParams,
) -> GraphView {
    let start = g.raised(idx as int, level as nat);
    if g.entry == EMPTY {
        GraphView { entry: idx, top: level, ..start }
    } else {
        let ep = fallen(start, key, g.entry, g.top, level);
        let mid = joined_down(
            start,
            between,
            idx,
            seq![ep],
            lesser(level, g.top),
            params,
            key,
        );
        if level > g.top {
            GraphView { entry: idx, top: level, ..mid }
        } else {
            mid
        }
    }
}

/// Whether every one of some nodes reaches a layer.
pub open spec fn on_layer(g: GraphView, nodes: Seq<u32>, l: int) -> bool {
    forall|i: int|
        0 <= i < nodes.len() ==> (#[trigger] nodes[i]) < g.rows.len() && g.rows[nodes[i] as int].len()
            > l
}

proof fn lemma_reached_on_layer(g: GraphView, m: nat, m0: nat, l: int, eps: Seq<u32>, x: u32)
    requires
        g.sound(),
        g.layered(m, m0),
        l >= 0,
        on_layer(g, eps, l),
        reachable(g, l, eps, x),
    ensures
        x < g.rows.len(),
        g.rows[x as int].len() > l,
{
    let p = choose|p: Seq<u32>| #[trigger]
        is_path(g, l, p) && eps.contains(p[0]) && p.last() == x;
    let k = choose|k: int| 0 <= k < eps.len() && eps[k] == p[0];
    assert(eps[k] < g.rows.len());
    lemma_path_on_layer(g, m, m0, l, p, p.len() - 1);
}

proof fn lemma_path_on_layer(g: GraphView, m: nat, m0: nat, l: int, p: Seq<u32>, i: int)
    requires
        g.sound(),
        g.layered(m, m0),
        l >= 0,
        is_path(g, l, p),
        0 <= i < p.len(),
        p[0] < g.rows.len(),
        g.rows[p[0] as int].len() > l,
    ensures
        p[i] < g.rows.len(),
        g.rows[p[i] as int].len() > l,
    decreases i,
{
    if i > 0 {
        lemma_path_on_layer(g, m, m0, l, p, i - 1);
        let n = p[i - 1] as int;
        assert(g.nbrs(p[i - 1] as int, l).contains(p[i - 1 + 1]));
        let row = g.nbrs(n, l);
        let k = choose|k: int| 0 <= k < row.len() && row[k] == p[i];
        assert(g.rows[n][l][k] == p[i]);
    }
}

proof fn lemma_found_on_layer(
    g: GraphView,
    m: nat,
    m0: nat,
    key: spec_fn(u32) -> u32,
    pass: spec_fn(u32) -> bool,
    l: int,
    eps: Seq<u32>,
    ef: nat,
    out: Seq<Near>,
)
    requires
        g.sound(),
        g.layered(m, m0),
        l >= 0,
        on_layer(g, eps, l),
        finds(g, key, pass, l, eps, ef, out),
    ensures
        on_layer(g, ids_of(out), l),
{
    let seen = choose|seen: Set<u32>| #[trigger]
        search_ends(g, key, pass, l, eps, ef, out, seen);
    assert forall|i: int| 0 <= i < ids_of(out).len() implies (#[trigger] ids_of(out)[i])
        < g.rows.len() && g.rows[ids_of(out)[i] as int].len() > l by {
        assert(seen.contains(out[i].id));
        lemma_reached_on_layer(g, m, m0, l, eps, out[i].id);
    }
}

proof fn lemma_with_row(g: GraphView, m: nat, m0: nat, n: int, l: int, links: Seq<u32>)
    requires
        g.sound(),
        g.layered(m, m0),
        0 <= n < g.rows.len(),
        0 <= l < g.rows[n].len(),
        on_layer(g, links, l),
        links.len() <= (if l == 0 {
            m0
        } else {
            m
        }),
    ensures
        g.with_row(n, l, links).sound(),
        g.with_row(n, l, links).layered(m, m0),
        g.with_row(n, l, links).rows.len() == g.rows.len(),
        forall|k: int|
            0 <= k < g.rows.len() ==> (#[trigger] g.with_row(n, l, links).rows[k]).len()
                == g.rows[k].len(),
        g.with_row(n, l, links).nbrs(n, l) == links,
{
    let h = g.with_row(n, l, links);
    assert forall|a: int, b: int, i: int|
        0 <= a < h.rows.len() && 0 <= b < h.rows[a].len() && 0 <= i
            < h.rows[a][b].len() implies #[trigger] h.rows[a][b][i] < h.rows.len()
        && h.rows[h.rows[a][b][i] as int].len() > b by {
        if a == n && b == l {
            assert(links[i] < g.rows.len());
        } else {
            assert(g.rows[a][b][i] == h.rows[a][b][i]);
        }
    }
    assert forall|a: int, b: int| 0 <= a < h.rows.len() && 0 <= b < h.rows[a].len() implies (
    #[trigger] h.rows[a][b]).len() <= (if b == 0 {
        m0
    } else {
        m
    }) by {
        if a == n && b == l {
        } else {
            assert(g.rows[a][b] == h.rows[a][b]);
        }
    }
}

impl HnswGraph {
    /// The graph keeps to its form, apart from where searches start.
    pub open spec fn grown(&self) -> bool {
        &&& self.valid()
        &&& self.filled()
        &&& self@.layered(self.m as nat, self.m0 as nat)
    }

    proof fn lemma_recrowned(&self, before: HnswGraph)
        requires
            before.grown(),
            self.count == before.count,
            self.m == before.m,
            self.m0 == before.m0,
            self.levels == before.levels,
            self.layer0 == before.layer0,
            self.upper == before.upper,
            self.entry < self.count,
        ensures
            self.grown(),
            self@ == (GraphView { entry: self.entry, top: self.max_level as int, ..before@ }),
    {
        assert forall|n: int| 0 <= n < self.count implies #[trigger] self@.rows[n]
            =~= before@.rows[n] by {
            assert forall|l: int| 0 <= l < self@.rows[n].len() implies #[trigger] self@.rows[n][l]
                == before@.rows[n][l] by {
                assert(self.links_of(n, l) == before.links_of(n, l));
            }
        }
        assert(self@.rows =~= before@.rows);
        assert forall|n: int| 0 <= n < self.count implies tidy(#[trigger] self.ground(n)) by {
            assert(self.ground(n) == before.ground(n));
        }
        assert(before@.sound() && before@.layered(self.m as nat, self.m0 as nat));
    }

    /// Gives node `n` a link to `idx` on a layer.
    fn link_back<N, S>(
        &mut self,
        n: u32,
        level: i32,
        idx: u32,
        cap: usize,
        data: &SegmentCore,
        metric: Metric,
        kernel: &Kernel<N, S>,
    ) where N: Fn(&[u32]) -> u32, S: Fn(Metric, &[u32], u32, &[u32], u32) -> u32
        requires
            old(self).grown(),
            data.valid(),
            old(self).count <= data.ids@.len(),
            kernel.valid(),
            level >= 0,
            on_layer(old(self)@, seq![n], level as int),
            on_layer(old(self)@, seq![idx], level as int),
            cap == (if level == 0 {
                old(self).m0
            } else {
                old(self).m
            }),
        ensures
            final(self).grown(),
            final(self).count == old(self).count,
            final(self).m == old(self).m,
            final(self).m0 == old(self).m0,
            final(self).levels == old(self).levels,
            final(self).entry == old(self).entry,
            final(self).max_level == old(self).max_level,
            final(self)@ == linked(
                old(self)@,
                row_key(*data, metric, *kernel),
                n,
                level as int,
                idx,
                cap as nat,
            ),
    {
        let ghost g = self@;
        let ghost l = level as int;
        let ghost m = self.m as nat;
        let ghost m0 = self.m0 as nat;
        let ghost between = row_key(*data, metric, *kernel);
        let ghost row = g.nbrs(n as int, l);
        proof {
            assert(seq![n][0] == n && seq![idx][0] == idx);
            assert(g.rows[n as int].len() > l);
            assert(g.rows[idx as int].len() > l);
            assert(row == self.links_of(n as int, l));
            assert(on_layer(g, row, l)) by {
                assert forall|i: int| 0 <= i < row.len() implies (#[trigger] row[i]) < g.rows.len()
                    && g.rows[row[i] as int].len() > l by {
                    assert(g.rows[n as int][l][i] == row[i]);
                }
            }
            assert(on_layer(g, row.push(idx), l)) by {
                assert forall|i: int| 0 <= i < row.push(idx).len() implies (
                #[trigger] row.push(idx)[i]) < g.rows.len() && g.rows[row.push(idx)[i] as int].len()
                    > l by {
                    if i < row.len() {
                        assert(row.push(idx)[i] == row[i]);
                    }
                }
            }
        }
        let deg: usize = self.links_len(n, level);
        if deg < cap {
            self.push_link(n, level, idx);
            proof {
                lemma_with_row(g, m, m0, n as int, l, row.push(idx));
            }
        } else {
            let newl = {
                let ctx = Ctx { graph: &*self, data, metric, kernel };
                let cur = ctx.graph.neighbours(n, level);
                let mut pool: Vec<Near> = Vec::new();
                let mut i: usize = 0;
                while i < cur.len()
                    invariant
                        ctx.valid(),
                        between == ctx.between(),
                        n < ctx.graph.count,
                        i <= cur.len(),
                        cur@ == row,
                        forall|k: int| 0 <= k < row.len() ==> #[trigger] row[k] < ctx.graph.count,
                        pool@ == around(between, n, row).take(i as int),
                    decreases cur.len() - i,
                {
                    let c: u32 = cur[i];
                    let d: u32 = ctx.node_key(n, c);
                    pool.push(Near { id: c, key: d });
                    assert(pool@ =~= around(between, n, row).take(i + 1));
                    i = i + 1;
                }
                let d: u32 = ctx.node_key(n, idx);
                pool.push(Near { id: idx, key: d });
                assert(pool@ =~= around(between, n, row.push(idx)));
                let sorted = sort_by_key(&pool);
                proof {
                    lemma_by_key_items(pool@);
                    assert forall|k: int| 0 <= k < sorted@.len() implies (
                    #[trigger] sorted@[k]).id < ctx.graph.count by {
                        assert(sorted@.contains(sorted@[k]));
                        let j = choose|j: int| 0 <= j < pool@.len() && pool@[j] == sorted@[k];
                        assert(row.push(idx)[j] == pool@[j].id);
                    }
                }
                let newl = select_heuristic(&ctx, &sorted, cap);
                proof {
                    lemma_chosen(between, sorted@, cap as nat);
                    assert forall|i: int| 0 <= i < newl@.len() implies (#[trigger] newl@[i])
                        < g.rows.len() && g.rows[newl@[i] as int].len() > l by {
                        assert(ids_of(sorted@).contains(newl@[i]));
                        let k = choose|k: int|
                            0 <= k < ids_of(sorted@).len() && ids_of(sorted@)[k] == newl@[i];
                        assert(sorted@.contains(sorted@[k]));
                        let j = choose|j: int| 0 <= j < pool@.len() && pool@[j] == sorted@[k];
                        assert(row.push(idx)[j] == pool@[j].id);
                    }
                }
                newl
            };
            self.set_links(n, level, newl.as_slice());
            proof {
                lemma_with_row(g, m, m0, n as int, l, newl@);
            }
        }
    }

    /// Connects `idx` on a layer with the chosen ones among the candidates.
    fn join_layer<N, S>(
        &mut self,
        idx: u32,
        cands: &Vec<Near>,
        level: i32,
        cap: usize,
        data: &SegmentCore,
        metric: Metric,
        kernel: &Kernel<N, S>,
    ) where N: Fn(&[u32]) -> u32, S: Fn(Metric, &[u32], u32, &[u32], u32) -> u32
        requires
            old(self).grown(),
            data.valid(),
            old(self).count <= data.ids@.len(),
            kernel.valid(),
            level >= 0,
            on_layer(old(self)@, ids_of(cands@), level as int),
            on_layer(old(self)@, seq![idx], level as int),
            cap == (if level == 0 {
                old(self).m0
            } else {
                old(self).m
            }),
        ensures
            final(self).grown(),
            final(self).count == old(self).count,
            final(self).m == old(self).m,
            final(self).m0 == old(self).m0,
            final(self).levels == old(self).levels,
            final(self).entry == old(self).entry,
            final(self).max_level == old(self).max_level,
            final(self)@ == joined(
                old(self)@,
                row_key(*data, metric, *kernel),
                cands@,
                level as int,
                idx,
                cap as nat,
            ),
    {
        let ghost g = self@;
        let ghost l = level as int;
        let ghost m = self.m as nat;
        let ghost m0 = self.m0 as nat;
        let ghost between = row_key(*data, metric, *kernel);
        let selected = {
            let ctx = Ctx { graph: &*self, data, metric, kernel };
            proof {
                assert forall|i: int| 0 <= i < cands@.len() implies (#[trigger] cands@[i]).id
                    < ctx.graph.count by {
                    assert(ids_of(cands@)[i] == cands@[i].id);
                }
            }
            select_heuristic(&ctx, cands, cap)
        };
        proof {
            lemma_chosen(between, cands@, cap as nat);
            assert(seq![idx][0] == idx);
            assert(on_layer(g, selected@, l)) by {
                assert forall|i: int| 0 <= i < selected@.len() implies (#[trigger] selected@[i])
                    < g.rows.len() && g.rows[selected@[i] as int].len() > l by {
                    assert(ids_of(cands@).contains(selected@[i]));
                    let k = choose|k: int|
                        0 <= k < ids_of(cands@).len() && ids_of(cands@)[k] == selected@[i];
                    assert(ids_of(cands@)[k] < g.rows.len());
                }
            }
            lemma_with_row(g, m, m0, idx as int, l, selected@);
        }
        self.set_links(idx, level, selected.as_slice());
        let ghost g1 = self@;
        let mut i: usize = 0;
        while i < selected.len()
            invariant
                self.grown(),
                self.count == old(self).count,
                self.m == old(self).m,
                self.m0 == old(self).m0,
                self.levels == old(self).levels,
                self.entry == old(self).entry,
                self.max_level == old(self).max_level,
                data.valid(),
                self.count <= data.ids@.len(),
                kernel.valid(),
                level >= 0,
                l == level,
                between == row_key(*data, metric, *kernel),
                cap == (if level == 0 {
                    self.m0
                } else {
                    self.m
                }),
                i <= selected.len(),
                on_layer(g, selected@, l),
                on_layer(g, seq![idx], l),
                self@.rows.len() == g.rows.len(),
                forall|k: int|
                    0 <= k < g.rows.len() ==> (#[trigger] self@.rows[k]).len() == g.rows[k].len(),
                self@ == linked_all(g1, between, selected@.take(i as int), l, idx, cap as nat),
            decreases selected.len() - i,
        {
            let n: u32 = selected[i];
            let ghost before = self@;
            proof {
                assert(selected@.take(i + 1).drop_last() =~= selected@.take(i as int));
                assert(selected@.take(i + 1).last() == n);
                assert(seq![idx][0] == idx && seq![n][0] == n);
                assert(selected@[i as int] < g.rows.len());
                assert(self@.rows[n as int].len() > l);
                assert(self@.rows[idx as int].len() > l);
            }
            self.link_back(n, level, idx, cap, data, metric, kernel);
            proof {
                assert forall|k: int| 0 <= k < g.rows.len() implies (#[trigger] self@.rows[k]).len()
                    == g.rows[k].len() by {
                    assert(before.rows[k].len() == g.rows[k].len());
                }
            }
            i = i + 1;
        }
        assert(selected@.take(selected@.len() as int) =~= selected@);
    }
}

/// Whether a node is not part of the graph yet: it has no links, no links lead to it,
/// and searches do not start from it.
pub open spec fn untouched(g: GraphView, k: u32) -> bool {
    &&& k < g.rows.len()
    &&& g.rows[k as int] == seq![Seq::<u32>::empty()]
    &&& g.entry != k
    &&& forall|n: int, l: int, i: int|
        0 <= n < g.rows.len() && 0 <= l < g.rows[n].len() && 0 <= i < g.rows[n][l].len()
            ==> #[trigger] g.rows[n][l][i] != k
}

/// Whether the nodes from one on are not part of the graph yet.
pub open spec fn all_untouched(g: GraphView, first: u32) -> bool {
    forall|k: u32| first <= k < g.rows.len() ==> #[trigger] untouched(g, k)
}

/// Whether none of some nodes is `k`.
pub open spec fn without(nodes: Seq<u32>, k: u32) -> bool {
    forall|i: int| 0 <= i < nodes.len() ==> #[trigger] nodes[i] != k
}

proof fn lemma_row_untouched(g: GraphView, n: int, l: int, links: Seq<u32>, k: u32)
    requires
        untouched(g, k),
        0 <= n < g.rows.len(),
        0 <= l < g.rows[n].len(),
        n != k,
        without(links, k),
    ensures
        untouched(g.with_row(n, l, links), k),
{
    let h = g.with_row(n, l, links);
    assert forall|a: int, b: int, i: int|
        0 <= a < h.rows.len() && 0 <= b < h.rows[a].len() && 0 <= i
            < h.rows[a][b].len() implies #[trigger] h.rows[a][b][i] != k by {
        if a == n && b == l {
            assert(links[i] != k);
        } else {
            assert(g.rows[a][b][i] == h.rows[a][b][i]);
        }
    }
}

proof fn lemma_raised(g: GraphView, m: nat, m0: nat, idx: u32, level: nat)
    requires
        g.sound(),
        g.layered(m, m0),
        untouched(g, idx),
        level <= 32,
    ensures
        g.raised(idx as int, level).sound(),
        g.raised(idx as int, level).layered(m, m0),
        forall|k: u32| #[trigger]
            untouched(g, k) && k != idx ==> untouched(g.raised(idx as int, level), k),
{
    let h = g.raised(idx as int, level);
    assert forall|a: int, b: int, i: int|
        0 <= a < h.rows.len() && 0 <= b < h.rows[a].len() && 0 <= i
            < h.rows[a][b].len() implies #[trigger] h.rows[a][b][i] < h.rows.len()
        && h.rows[h.rows[a][b][i] as int].len() > b && a != idx && h.rows[a][b][i]
        == g.rows[a][b][i] by {
        assert(a != idx);
        assert(g.rows[a][b][i] == h.rows[a][b][i]);
    }
    assert forall|a: int, b: int| 0 <= a < h.rows.len() && 0 <= b < h.rows[a].len() implies (
    #[trigger] h.rows[a][b]).len() <= (if b == 0 {
        m0
    } else {
        m
    }) by {
        if a != idx {
            assert(g.rows[a][b] == h.rows[a][b]);
        }
    }
}

/// A node that is raised has no links, and no links lead to it.
proof fn lemma_raised_distinct(g: GraphView, idx: u32, level: nat)
    requires
        distinct(g),
        untouched(g, idx),
    ensures
        distinct(g.raised(idx as int, level)),
        forall|l: int| #[trigger] unlinked(g.raised(idx as int, level), idx, l),
{
    let h = g.raised(idx as int, level);
    assert forall|a: int, b: int| 0 <= a < h.rows.len() && 0 <= b < h.rows[a].len() implies proper_row(
        a,
        #[trigger] h.rows[a][b],
    ) by {
        if a != idx {
            assert(h.rows[a][b] == g.rows[a][b]);
        }
    }
    assert forall|l: int| #[trigger] unlinked(h, idx, l) by {
        assert forall|n: int, i: int|
            0 <= n < h.rows.len() && 0 <= l < h.rows[n].len() && 0 <= i
                < h.rows[n][l].len() implies #[trigger] h.rows[n][l][i] != idx by {
            assert(n != idx);
            assert(g.rows[n][l][i] != idx);
        }
    }
}

proof fn lemma_chosen_without(
    between: spec_fn(u32, u32) -> u32,
    cands: Seq<Near>,
    cap: nat,
    k: u32,
)
    requires
        without(ids_of(cands), k),
    ensures
        without(chosen(between, cands, cap), k),
{
    lemma_chosen(between, cands, cap);
    let c = chosen(between, cands, cap);
    assert forall|i: int| 0 <= i < c.len() implies #[trigger] c[i] != k by {
        assert(ids_of(cands).contains(c[i]));
    }
}

proof fn lemma_linked_untouched(
    g: GraphView,
    between: spec_fn(u32, u32) -> u32,
    n: u32,
    l: int,
    idx: u32,
    cap: nat,
    k: u32,
)
    requires
        untouched(g, k),
        n < g.rows.len(),
        0 <= l < g.rows[n as int].len(),
        n != k,
        idx != k,
    ensures
        untouched(linked(g, between, n, l, idx, cap), k),
        linked(g, between, n, l, idx, cap).rows.len() == g.rows.len(),
        forall|j: int|
            0 <= j < g.rows.len() ==> (#[trigger] linked(
                g,
                between,
                n,
                l,
                idx,
                cap,
            ).rows[j]).len() == g.rows[j].len(),
{
    let row = g.nbrs(n as int, l);
    let more = row.push(idx);
    assert forall|i: int| 0 <= i < more.len() implies #[trigger] more[i] != k by {
        if i < row.len() {
            assert(g.rows[n as int][l][i] == more[i]);
        }
    }
    if row.len() < cap {
        lemma_row_untouched(g, n as int, l, more, k);
    } else {
        let pool = around(between, n, more);
        let sorted = by_key(pool);
        lemma_by_key_items(pool);
        assert forall|i: int| 0 <= i < ids_of(sorted).len() implies #[trigger] ids_of(sorted)[i]
            != k by {
            assert(sorted.contains(sorted[i]));
            let j = choose|j: int| 0 <= j < pool.len() && pool[j] == sorted[i];
            assert(more[j] == pool[j].id);
        }
        lemma_chosen_without(between, sorted, cap, k);
        lemma_row_untouched(g, n as int, l, chosen(between, sorted, cap), k);
    }
}

proof fn lemma_linked_all_untouched(
    g: GraphView,
    between: spec_fn(u32, u32) -> u32,
    nodes: Seq<u32>,
    l: int,
    idx: u32,
    cap: nat,
    k: u32,
)
    requires
        untouched(g, k),
        on_layer(g, nodes, l),
        l >= 0,
        without(nodes, k),
        idx != k,
    ensures
        untouched(linked_all(g, between, nodes, l, idx, cap), k),
        linked_all(g, between, nodes, l, idx, cap).rows.len() == g.rows.len(),
        forall|j: int|
            0 <= j < g.rows.len() ==> (#[trigger] linked_all(
                g,
                between,
                nodes,
                l,
                idx,
                cap,
            ).rows[j]).len() == g.rows[j].len(),
    decreases nodes.len(),
{
    if nodes.len() > 0 {
        let rest = nodes.drop_last();
        assert forall|i: int| 0 <= i < rest.len() implies (#[trigger] rest[i]) < g.rows.len()
            && g.rows[rest[i] as int].len() > l && rest[i] != k by {
            assert(rest[i] == nodes[i]);
        }
        lemma_linked_all_untouched(g, between, rest, l, idx, cap, k);
        let n = nodes[nodes.len() - 1];
        assert(n < g.rows.len() && n != k);
        lemma_linked_untouched(
            linked_all(g, between, rest, l, idx, cap),
            between,
            n,
            l,
            idx,
            cap,
            k,
        );
    }
}

proof fn lemma_joined_untouched(
    g: GraphView,
    between: spec_fn(u32, u32) -> u32,
    cands: Seq<Near>,
    l: int,
    idx: u32,
    cap: nat,
    k: u32,
)
    requires
        untouched(g, k),
        on_layer(g, ids_of(cands), l),
        on_layer(g, seq![idx], l),
        l >= 0,
        without(ids_of(cands), k),
        idx != k,
    ensures
        untouched(joined(g, between, cands, l, idx, cap), k),
{
    let sel = chosen(between, cands, cap);
    assert(seq![idx][0] == idx);
    lemma_chosen(between, cands, cap);
    lemma_chosen_without(between, cands, cap, k);
    lemma_row_untouched(g, idx as int, l, sel, k);
    let h = g.with_row(idx as int, l, sel);
    assert forall|i: int| 0 <= i < sel.len() implies (#[trigger] sel[i]) < h.rows.len()
        && h.rows[sel[i] as int].len() > l by {
        assert(ids_of(cands).contains(sel[i]));
        let j = choose|j: int| 0 <= j < ids_of(cands).len() && ids_of(cands)[j] == sel[i];
        assert(ids_of(cands)[j] < g.rows.len());
    }
    lemma_linked_all_untouched(h, between, sel, l, idx, cap, k);
}

proof fn lemma_path_avoids(g: GraphView, l: int, p: Seq<u32>, i: int, k: u32)
    requires
        g.sound(),
        untouched(g, k),
        is_path(g, l, p),
        p[0] != k,
        p[0] < g.rows.len(),
        0 <= i < p.len(),
    ensures
        p[i] != k,
        p[i] < g.rows.len(),
    decreases i,
{
    if i > 0 {
        lemma_path_avoids(g, l, p, i - 1, k);
        let n = p[i - 1] as int;
        assert(g.nbrs(p[i - 1] as int, l).contains(p[i - 1 + 1]));
        let row = g.nbrs(n, l);
        let j = choose|j: int| 0 <= j < row.len() && row[j] == p[i];
        assert(g.rows[n][l][j] == p[i]);
    }
}

proof fn lemma_found_without(
    g: GraphView,
    key: spec_fn(u32) -> u32,
    pass: spec_fn(u32) -> bool,
    l: int,
    eps: Seq<u32>,
    ef: nat,
    out: Seq<Near>,
    k: u32,
)
    requires
        g.sound(),
        untouched(g, k),
        without(eps, k),
        forall|i: int| 0 <= i < eps.len() ==> #[trigger] eps[i] < g.rows.len(),
        finds(g, key, pass, l, eps, ef, out),
    ensures
        without(ids_of(out), k),
{
    let seen = choose|seen: Set<u32>| #[trigger]
        search_ends(g, key, pass, l, eps, ef, out, seen);
    assert forall|i: int| 0 <= i < ids_of(out).len() implies #[trigger] ids_of(out)[i] != k by {
        assert(seen.contains(out[i].id));
        let p = choose|p: Seq<u32>| #[trigger]
            is_path(g, l, p) && eps.contains(p[0]) && p.last() == out[i].id;
        let j = choose|j: int| 0 <= j < eps.len() && eps[j] == p[0];
        assert(eps[j] != k && eps[j] < g.rows.len());
        lemma_path_avoids(g, l, p, p.len() - 1, k);
    }
}

/// A search finds something where it may find anything at all.
proof fn lemma_found_some(
    g: GraphView,
    key: spec_fn(u32) -> u32,
    l: int,
    eps: Seq<u32>,
    ef: nat,
    out: Seq<Near>,
)
    requires
        ef > 0,
        eps.len() > 0,
        finds(g, key, everything(), l, eps, ef, out),
    ensures
        out.len() > 0,
{
    let seen = choose|seen: Set<u32>| #[trigger]
        search_ends(g, key, everything(), l, eps, ef, out, seen);
    assert(seen.contains(eps[0]));
    assert(everything()(eps[0]));
}

/// Connecting a node on a layer leaves the other nodes linked with each other on the ground layer,
/// and on that layer links it with them.
proof fn lemma_still_meshed(
    before: GraphView,
    after: GraphView,
    g: GraphView,
    between: spec_fn(u32, u32) -> u32,
    key: spec_fn(u32) -> u32,
    eps: Seq<u32>,
    cands: Seq<Near>,
    l: int,
    idx: u32,
    params: HnswParams,
)
    requires
        meshed(before, idx as nat),
        before.sound(),
        before.entry != EMPTY,
        l >= 0,
        idx < before.rows.len(),
        idx <= params.m0,
        idx < breadth(params),
        after == joined(before, between, cands, l, idx, params.cap(l)),
        after.rows.len() == before.rows.len(),
        after.entry == before.entry,
        forall|a: int| 0 <= a < before.rows.len() ==> (#[trigger] before.rows[a]).len() > 0,
        forall|a: int|
            0 <= a < before.rows.len() ==> (#[trigger] after.rows[a]).len() == before.rows[a].len(),
        l > 0 ==> forall|a: int|
            0 <= a < before.rows.len() ==> #[trigger] after.rows[a][0] == before.rows[a][0],
        eps.len() > 0,
        forall|i: int| 0 <= i < eps.len() ==> (#[trigger] eps[i]) < before.rows.len(),
        without(eps, idx),
        forall|k: u32|
            idx < k < before.rows.len() ==> #[trigger] untouched(g, k) && without(eps, k)
                && without(ids_of(cands), k),
        without(ids_of(cands), idx),
        ids_of(cands).no_duplicates(),
        finds(before, key, everything(), l, eps, breadth(params), cands),
        on_layer(before, ids_of(cands), l),
    ensures
        meshed(
            after,
            if l > 0 {
                idx as nat
            } else {
                idx as nat + 1
            },
        ),
{
    if l > 0 {
        assert forall|a: int| 0 <= a < idx implies #[trigger] after.nbrs(a, 0) == before.nbrs(
            a,
            0,
        ) by {
            assert(after.rows[a][0] == before.rows[a][0]);
            assert(after.rows[a].len() == before.rows[a].len());
        }
    } else {
        assert forall|i: int| 0 <= i < cands.len() implies (#[trigger] ids_of(cands)[i]) < idx by {
            let k = ids_of(cands)[i];
            assert(k != idx);
            if k > idx {
                assert(untouched(g, k));
            }
        }
        let k = eps[0];
        assert(k != idx);
        if k > idx {
            assert(untouched(g, k));
        }
        lemma_found_mesh(before, key, eps, breadth(params), cands, idx as nat);
        lemma_joined_mesh(before, between, cands, idx, params.cap(0));
    }
}

impl HnswGraph {
    /// Walks down from where searches start to just above layer `level`, for the
    /// vector of row `idx`.
    fn fall<N, S>(
        &self,
        idx: u32,
        level: i32,
        data: &SegmentCore,
        metric: Metric,
        kernel: &Kernel<N, S>,
    ) -> (ep: u32) where N: Fn(&[u32]) -> u32, S: Fn(Metric, &[u32], u32, &[u32], u32) -> u32
        requires
            self.grown(),
            data.valid(),
            self.count <= data.ids@.len(),
            kernel.valid(),
            idx < self.count,
            self.entry < self.count,
            level >= 0,
            0 <= self.max_level,
            self@.rows[self.entry as int].len() == self.max_level + 1,
        ensures
            ep == fallen(
                self@,
                query_key(*data, metric, *kernel, data.row(idx as int)),
                self.entry,
                self.max_level as int,
                level as int,
            ),
            ep < self.count,
            self@.rows[ep as int].len() > (if level < self.max_level {
                level as int
            } else {
                self.max_level as int
            }),
            forall|k: u32| #[trigger] untouched(self@, k) ==> ep != k,
            self.entry != idx && (forall|l: int| #[trigger] unlinked(self@, idx, l)) ==> ep != idx,
    {
        let ghost g = self@;
        let ghost m = self.m as nat;
        let ghost m0 = self.m0 as nat;
        let query = data.vector(idx);
        let ghost key = query_key(*data, metric, *kernel, query@);
        let ctx = Ctx { graph: self, data, metric, kernel };
        let mut ep: u32 = self.entry;
        let mut cur: i32 = self.max_level;
        while cur > level
            invariant
                ctx.valid(),
                ctx.graph == self,
                ctx.data == data,
                ctx.metric == metric,
                ctx.kernel == kernel,
                g == self@,
                g.sound(),
                g.layered(m, m0),
                key == query_key(*data, metric, *kernel, query@),
                cur <= self.max_level,
                level >= 0,
                cur >= level || cur == self.max_level,
                ep < self.count,
                g.rows[ep as int].len() > cur,
                fallen(g, key, ep, cur as int, level as int) == fallen(
                    g,
                    key,
                    self.entry,
                    self.max_level as int,
                    level as int,
                ),
                forall|k: u32| #[trigger] untouched(g, k) ==> ep != k,
                self.entry != idx && (forall|l: int| #[trigger] unlinked(g, idx, l)) ==> ep != idx,
            decreases cur - level,
        {
            let next: u32 = greedy_descend(&ctx, query, ep, cur);
            proof {
                assert(descends(g, key, cur as int, ep, next));
                let p = choose|p: Seq<u32>| #[trigger]
                    is_path(g, cur as int, p) && p[0] == ep && p.last() == next
                        && crate::index::hnsw::traversal::nearing(key, p);
                lemma_path_on_layer(g, m, m0, cur as int, p, p.len() - 1);
                if self.entry != idx && (forall|l: int| #[trigger] unlinked(g, idx, l)) {
                    assert(unlinked(g, idx, cur as int));
                    lemma_walk_avoids(g, cur as int, p, p.len() - 1, idx);
                }
                assert forall|k: u32| #[trigger] untouched(g, k) implies next != k by {
                    lemma_path_avoids(g, cur as int, p, p.len() - 1, k);
                }
            }
            ep = next;
            cur = cur - 1;
        }
        ep
    }

    /// Adds row `idx` to the graph, with layers up to a given one.
    pub fn insert_at<N, S>(
        &mut self,
        idx: u32,
        data: &SegmentCore,
        metric: Metric,
        kernel: &Kernel<N, S>,
        params: &HnswParams,
        level: u32,
    ) where N: Fn(&[u32]) -> u32, S: Fn(Metric, &[u32], u32, &[u32], u32) -> u32
        requires
            old(self).built(),
            data.valid(),
            old(self).count <= data.ids@.len(),
            kernel.valid(),
            params.m == old(self).m,
            params.m0 == old(self).m0,
            untouched(old(self)@, idx),
            level <= MAX_LEVEL,
        ensures
            final(self).built(),
            final(self).count == old(self).count,
            final(self).m == old(self).m,
            final(self).m0 == old(self).m0,
            final(self)@ == with_node(
                old(self)@,
                row_key(*data, metric, *kernel),
                query_key(*data, metric, *kernel, data.row(idx as int)),
                idx,
                level as int,
                *params,
            ),
            forall|k: u32| #[trigger]
                untouched(old(self)@, k) && k != idx ==> untouched(final(self)@, k),
            meshed(old(self)@, idx as nat) && all_untouched(old(self)@, idx) && idx <= params.m0
                && idx < breadth(*params) ==> meshed(final(self)@, idx as nat + 1),
    {
        let ghost g0 = self@;
        let ghost m = self.m as nat;
        let ghost m0 = self.m0 as nat;
        let ghost between = row_key(*data, metric, *kernel);
        let ghost close = meshed(g0, idx as nat) && all_untouched(g0, idx) && idx <= params.m0
            && idx < breadth(*params);
        self.raise(idx, level);
        let ghost g = self@;
        proof {
            reveal(with_node);
            lemma_raised(g0, m, m0, idx, level as nat);
            lemma_raised_distinct(g0, idx, level as nat);
        }
        if self.entry == EMPTY {
            let ghost plain = *self;
            self.entry = idx;
            self.max_level = level as i32;
            proof {
                let h = GraphView { entry: idx, top: level as int, ..g };
                self.lemma_recrowned(plain);
                assert forall|n: int| 0 <= n < h.rows.len() implies (#[trigger] h.rows[n]).len()
                    <= level + 1 by {
                    assert(g0.rows[n].len() == 1);
                }
                if close {
                    assert(idx == 0);
                    assert(self@.rows[0] == g.rows[0]);
                    assert(self@.nbrs(0, 0) =~= Seq::<u32>::empty());
                }
            }
            return;
        }
        let top: i32 = self.max_level;
        let lev: i32 = level as i32;
        let ep: u32 = self.fall(idx, lev, data, metric, kernel);
        let query = data.vector(idx);
        let ghost key = query_key(*data, metric, *kernel, query@);
        let mut eps: Vec<u32> = Vec::new();
        eps.push(ep);
        let first: i32 = if lev < top {
            lev
        } else {
            top
        };
        let ef: usize = if params.ef_construct < 1 {
            1
        } else {
            params.ef_construct
        };
        assert(eps@ =~= seq![ep]);
        let ghost lv = self.levels;
        proof {
            if close {
                assert forall|k: u32| idx < k < self.count implies #[trigger] untouched(g, k) by {
                    assert(untouched(g0, k));
                }
                assert forall|a: int| 0 <= a < idx implies #[trigger] g.nbrs(a, 0) == g0.nbrs(
                    a,
                    0,
                ) by {
                    assert(g.rows[a] == g0.rows[a]);
                }
            }
        }
        let mut cur: i32 = first;
        while cur >= 0
            invariant
                self.grown(),
                self.count == old(self).count,
                self.m == m,
                self.m0 == m0,
                self.levels == lv,
                lv@.len() == self.count,
                self.entry == g.entry,
                self.max_level == top,
                g.entry != EMPTY,
                data.valid(),
                self.count <= data.ids@.len(),
                kernel.valid(),
                params.m == m,
                params.m0 == m0,
                between == row_key(*data, metric, *kernel),
                query@ == data.row(idx as int),
                key == query_key(*data, metric, *kernel, query@),
                ef == breadth(*params),
                -1 <= cur <= first,
                first <= level,
                eps@.len() > 0,
                on_layer(self@, eps@, cur as int),
                idx < self.count,
                self@.rows.len() == g.rows.len(),
                forall|k: int|
                    0 <= k < g.rows.len() ==> (#[trigger] g.rows[k]).len() == lv@[k] + 1,
                lv@[idx as int] == level,
                joined_down(self@, between, idx, eps@, cur as int, *params, key) == joined_down(
                    g,
                    between,
                    idx,
                    seq![ep],
                    first as int,
                    *params,
                    key,
                ),
                forall|k: u32| #[trigger]
                    untouched(g, k) && k != idx ==> untouched(self@, k) && without(eps@, k),
                distinct(self@),
                without(eps@, idx),
                forall|l: int| l <= cur ==> #[trigger] unlinked(self@, idx, l),
                close ==> idx <= params.m0 && idx < breadth(*params),
                close ==> forall|k: u32| idx < k < self.count ==> #[trigger] untouched(g, k),
                close ==> meshed(
                    self@,
                    if cur >= 0 {
                        idx as nat
                    } else {
                        idx as nat + 1
                    },
                ),
            decreases cur + 1,
        {
            let ghost before = self@;
            let ghost eps0 = eps@;
            let cands = {
                let ctx = Ctx { graph: &*self, data, metric, kernel };
                let pass: Option<AllRows> = None;
                assert(admitted(pass) =~= everything());
                search_layer(&ctx, query, eps.as_slice(), ef, cur, &pass)
            };
            let cap: usize = params.max_links(cur);
            proof {
                assert(finds(before, key, everything(), cur as int, eps0, ef as nat, cands@));
                lemma_found_on_layer(
                    before,
                    m,
                    m0,
                    key,
                    everything(),
                    cur as int,
                    eps0,
                    ef as nat,
                    cands@,
                );
                lemma_found_some(before, key, cur as int, eps0, ef as nat, cands@);
                assert(seq![idx][0] == idx);
                assert(before.rows[idx as int].len() > cur);
                assert(on_layer(before, seq![idx], cur as int));
                assert(unlinked(before, idx, cur as int));
                lemma_found_distinct(before, key, cur as int, eps0, ef as nat, cands@, idx);
                lemma_joined_distinct(
                    before,
                    between,
                    cands@,
                    cur as int,
                    idx,
                    params.cap(cur as int),
                );
            }
            self.join_layer(idx, &cands, cur, cap, data, metric, kernel);
            proof {
                assert(joined(before, between, cands@, cur as int, idx, params.cap(cur as int))
                    == self@);
                assert forall|l: int| l <= cur - 1 implies #[trigger] unlinked(self@, idx, l) by {
                    assert(unlinked(before, idx, l));
                    assert forall|n: int, i: int|
                        0 <= n < self@.rows.len() && 0 <= l < self@.rows[n].len() && 0 <= i
                            < self@.rows[n][l].len() implies #[trigger] self@.rows[n][l][i]
                        != idx by {
                        assert(before.rows[n].len() == self@.rows[n].len());
                        assert(self@.rows[n][l] == before.rows[n][l]);
                        assert(before.rows[n][l][i] != idx);
                    }
                }
                assert(cands@ == found_on(
                    before,
                    key,
                    everything(),
                    cur as int,
                    eps0,
                    breadth(*params),
                ));
                assert forall|k: u32| #[trigger] untouched(g, k) && k != idx implies untouched(
                    self@,
                    k,
                ) && without(ids_of(cands@), k) by {
                    lemma_found_without(
                        before,
                        key,
                        everything(),
                        cur as int,
                        eps0,
                        ef as nat,
                        cands@,
                        k,
                    );
                    lemma_joined_untouched(
                        before,
                        between,
                        cands@,
                        cur as int,
                        idx,
                        cap as nat,
                        k,
                    );
                }
            }
            proof {
                if close {
                    lemma_still_meshed(
                        before,
                        self@,
                        g,
                        between,
                        key,
                        eps0,
                        cands@,
                        cur as int,
                        idx,
                        *params,
                    );
                }
            }
            eps = ids(&cands);
            proof {
                assert forall|i: int| 0 <= i < eps@.len() implies (#[trigger] eps@[i])
                    < self@.rows.len() && self@.rows[eps@[i] as int].len() > cur - 1 by {
                    assert(ids_of(cands@)[i] < before.rows.len());
                }
            }
            cur = cur - 1;
        }
        let ghost mid = self@;
        proof {
            assert(joined_down(mid, between, idx, eps@, cur as int, *params, key) == mid);
            assert(first == lesser(level as int, g0.top));
            assert(ep == fallen(g, key, g0.entry, g0.top, level as int));
            assert forall|n: int| 0 <= n < mid.rows.len() implies (#[trigger] mid.rows[n]).len()
                == (if n == idx {
                level + 1
            } else {
                g0.rows[n].len() as int
            }) by {
                assert(g.rows[n].len() == lv@[n] + 1);
            }
            assert(mid.rows[g0.entry as int].len() == top + 1);
            assert forall|n: int| 0 <= n < mid.rows.len() implies (#[trigger] mid.rows[n]).len()
                <= (if level > top {
                level + 1
            } else {
                top + 1
            }) by {
                assert(g0.rows[n].len() <= top + 1);
            }
        }
        if lev > top {
            let ghost plain = *self;
            self.entry = idx;
            self.max_level = lev;
            proof {
                self.lemma_recrowned(plain);
                if close {
                    assert forall|a: int| 0 <= a < idx + 1 implies #[trigger] self@.nbrs(a, 0)
                        == mid.nbrs(a, 0) by {}
                }
            }
        }
    }
}

impl HnswGraph {
    /// Adds row `idx` to the graph, with layers up to a drawn one.
    pub fn insert<N, S>(
        &mut self,
        idx: u32,
        data: &SegmentCore,
        metric: Metric,
        kernel: &Kernel<N, S>,
        params: &HnswParams,
        rng: &mut Rng,
    ) where N: Fn(&[u32]) -> u32, S: Fn(Metric, &[u32], u32, &[u32], u32) -> u32
        requires
            old(self).built(),
            data.valid(),
            old(self).count <= data.ids@.len(),
            kernel.valid(),
            params.m == old(self).m,
            params.m0 == old(self).m0,
            untouched(old(self)@, idx),
        ensures
            final(self).built(),
            final(self).count == old(self).count,
            final(self).m == old(self).m,
            final(self).m0 == old(self).m0,
            final(rng).state() == advanced(old(rng).state()),
            final(self)@ == with_node(
                old(self)@,
                row_key(*data, metric, *kernel),
                query_key(*data, metric, *kernel, data.row(idx as int)),
                idx,
                lesser(drawn_level(final(rng).state(), old(self).m) as int, MAX_LEVEL as int),
                *params,
            ),
            forall|k: u32| #[trigger]
                untouched(old(self)@, k) && k != idx ==> untouched(final(self)@, k),
            meshed(old(self)@, idx as nat) && all_untouched(old(self)@, idx) && idx <= params.m0
                && idx < breadth(*params) ==> meshed(final(self)@, idx as nat + 1),
    {
        let draw: u32 = sample_level(rng, self.m);
        let level: u32 = if draw < MAX_LEVEL {
            draw
        } else {
            MAX_LEVEL
        };
        self.insert_at(idx, data, metric, kernel, params, level);
        proof {
            lemma_drawn_level(rng.state(), old(self).m, draw as nat);
        }
    }
}

/// Whether the source of numbers draws a layer with the step to a state, for graphs
/// with `m` links on a layer.
pub open spec fn drawn_layer(state: u64, m: usize, level: nat) -> bool {
    top_layer(
        upper24(drawn(state)),
        if m < 2 {
            2
        } else {
            m as int
        },
        level,
    )
}

/// The layer that the source of numbers draws with the step to a state.
pub open spec fn drawn_level(state: u64, m: usize) -> nat {
    choose|level: nat| drawn_layer(state, m, level)
}

/// Only one layer is drawn.
proof fn lemma_drawn_level(state: u64, m: usize, level: nat)
    requires
        drawn_layer(state, m, level),
    ensures
        drawn_level(state, m) == level,
{
    law_top_layer_unique(
        upper24(drawn(state)),
        if m < 2 {
            2
        } else {
            m as int
        },
        level,
        drawn_level(state, m),
    );
}

fn ids(s: &Vec<Near>) -> (r: Vec<u32>)
    ensures
        r@ == ids_of(s@),
{
    let mut r: Vec<u32> = Vec::new();
    let mut i: usize = 0;
    while i < s.len()
        invariant
            i <= s.len(),
            r@ == ids_of(s@).take(i as int),
        decreases s.len() - i,
    {
        r.push(s[i].id);
        assert(r@ =~= ids_of(s@).take(i + 1));
        i = i + 1;
    }
    assert(ids_of(s@).take(i as int) =~= ids_of(s@));
    r
}

/// A node that gets one more link keeps all that it has where there is place. Otherwise it has at most
/// as many as it may, all of them among those that it had and the new one, and no other of these is
/// nearer to it than the nearest that it keeps.
pub proof fn law_links_stay_near(
    g: GraphView,
    between: spec_fn(u32, u32) -> u32,
    n: u32,
    l: int,
    idx: u32,
    cap: nat,
    y: u32,
)
    requires
        n < g.rows.len(),
        0 <= l < g.rows[n as int].len(),
        cap > 0,
    ensures
        ({
            let row = g.nbrs(n as int, l);
            let r = linked(g, between, n, l, idx, cap).nbrs(n as int, l);
            &&& row.len() < cap ==> r == row.push(idx)
            &&& row.len() >= cap ==> 0 < r.len() <= cap
            &&& forall|i: int|
                0 <= i < r.len() ==> #[trigger] r[i] == idx || row.contains(r[i])
            &&& y == idx || row.contains(y) ==> exists|i: int|
                0 <= i < r.len() && !below(between(n, y), between(n, #[trigger] r[i]))
        }),
{
    let row = g.nbrs(n as int, l);
    let more = row.push(idx);
    let h = linked(g, between, n, l, idx, cap);
    let r = h.nbrs(n as int, l);
    if row.len() < cap {
        assert(h.rows[n as int][l] == more);
        assert(r == more);
        if y == idx || row.contains(y) {
            if y == idx {
                assert(r[row.len() as int] == y);
            } else {
                let i = choose|i: int| 0 <= i < row.len() && row[i] == y;
                assert(r[i] == y);
            }
        }
    } else {
        let pool = around(between, n, more);
        let sorted = by_key(pool);
        assert(h.rows[n as int][l] == chosen(between, sorted, cap));
        lemma_by_key_items(pool);
        law_sorted_by_key(pool);
        law_chosen_neighbours(between, sorted, cap, 0);
        lemma_chosen(between, sorted, cap);
        assert forall|i: int| 0 <= i < r.len() implies #[trigger] r[i] == idx || row.contains(
            r[i],
        ) by {
            assert(ids_of(sorted).contains(r[i]));
            let a = choose|a: int| 0 <= a < sorted.len() && ids_of(sorted)[a] == r[i];
            assert(sorted.contains(sorted[a]));
            let b = choose|b: int| 0 <= b < pool.len() && pool[b] == sorted[a];
            assert(more[b] == r[i]);
            if b < row.len() {
                assert(row[b] == r[i]);
            }
        }
        let first = sorted[0];
        assert(sorted.contains(first));
        let b = choose|b: int| 0 <= b < pool.len() && pool[b] == first;
        assert(first.key == between(n, r[0]));
        if y == idx || row.contains(y) {
            let c: int = if y == idx {
                row.len() as int
            } else {
                choose|c: int| 0 <= c < row.len() && row[c] == y
            };
            assert(pool[c] == (Near { id: y, key: between(n, y) }));
            assert(sorted.contains(pool[c]));
            let d = choose|d: int| 0 <= d < sorted.len() && sorted[d] == pool[c];
            if d > 0 {
                assert(rank(sorted[0].key) <= rank(sorted[d].key));
            }
            law_orders_agree(between(n, y), between(n, r[0]));
            assert(!below(between(n, y), between(n, r[0])));
        }
    }
}

} // verus!
