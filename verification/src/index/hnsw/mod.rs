//! Approximate nearest neighbours by hierarchical navigable small-world graphs.
//!
//! Rows are added one by one. A deleted row stays in the graph, where searches walk
//! through it without finding it. A search that finds too little is repeated with
//! more candidates, up to three times.

pub mod check;
pub mod distinct;
pub mod graph;
pub mod image;
pub mod insert;
pub mod mesh;
pub mod params;
pub mod rng;
pub mod traversal;

use vstd::prelude::*;

use crate::count::plus;
use crate::error::{Error, Invalid};
use crate::float::{below, law_orders_agree, place, rank};
use crate::index::flat::row_scores;
use crate::index::hnsw::graph::{blank, GraphView, HnswGraph, EMPTY};
use crate::index::hnsw::image::{image_of, lemma_same_image};
use crate::index::hnsw::insert::{
    drawn_level, fallen, lesser, untouched, with_node, MAX_LEVEL,
};
use crate::index::hnsw::mesh::meshed;
use crate::index::hnsw::params::HnswParams;
use crate::index::hnsw::rng::{advanced, Rng};
use crate::index::hnsw::traversal::{
    all_seen, closest, descended, found_on, greedy_descend, ids_of, is_path, law_search_ends,
    lemma_closed, lemma_ordered_ids_distinct, query_key, reachable, row_key, search_ends,
    search_layer, Ctx,
};
use crate::index::queue::{before, ordered, Near};
use crate::index::{admitted, filter_valid, presents, RowFilter};
use crate::kernel::{law_key_round_trip, to_score, Kernel, Metric};
use crate::segment::data::SegmentCore;

verus! {

/// The seed of the source of numbers that draws the layers of nodes.
pub const SEED: u64 = 0x5DEE_CE66;

/// A graph index of the rows of a segment.
pub struct HnswIndex {
    /// The graph.
    pub graph: HnswGraph,
    /// The parameters it was built with.
    pub params: HnswParams,
}

/// The state of the source of numbers once the layers of `n` nodes were drawn.
pub open spec fn state_after(n: nat) -> u64
    decreases n,
{
    if n == 0 {
        SEED ^ 0x9E37_79B9_7F4A_7C15
    } else {
        advanced(state_after((n - 1) as nat))
    }
}

/// The graph once the first `n` rows of a segment were added, one after the other.
pub open spec fn built_of<N, S>(
    n: nat,
    data: SegmentCore,
    metric: Metric,
    kernel: Kernel<N, S>,
    params: HnswParams,
) -> GraphView where N: Fn(&[u32]) -> u32, S: Fn(Metric, &[u32], u32, &[u32], u32) -> u32
    decreases n,
{
    if n == 0 {
        blank(data.ids@.len())
    } else {
        with_node(
            built_of((n - 1) as nat, data, metric, kernel, params),
            row_key(data, metric, kernel),
            query_key(data, metric, kernel, data.row(n - 1)),
            (n - 1) as u32,
            lesser(drawn_level(state_after(n), params.m) as int, MAX_LEVEL as int),
            params,
        )
    }
}

/// What searches of the ground layer from `ep` end with, first for the nearest `ef` nodes
/// and then for ever more of them. They go on until `k` nodes are found, `cap` are asked for, or
/// `tries` more searches were made.
pub open spec fn widened(
    g: GraphView,
    key: spec_fn(u32) -> u32,
    pass: spec_fn(u32) -> bool,
    ep: u32,
    k: nat,
    ef: nat,
    cap: nat,
    tries: nat,
) -> Seq<Near>
    decreases tries,
{
    let found = found_on(g, key, pass, 0, seq![ep], ef);
    if found.len() >= k || ef >= cap || tries == 0 {
        found
    } else {
        widened(
            g,
            key,
            pass,
            ep,
            k,
            lesser(2 * ef as int, cap as int) as nat,
            cap,
            (tries - 1) as nat,
        )
    }
}

/// The first `k` of some rows, with their scores.
pub open spec fn scored(metric: Metric, found: Seq<Near>, k: nat) -> Seq<(u32, u32)> {
    Seq::new(
        lesser(k as int, found.len() as int) as nat,
        |i: int| (found[i].id, metric.key(found[i].key)),
    )
}

/// What a search of the graph for `k` rows gives: a descent to the ground layer, then searches of
/// the ground layer.
pub open spec fn answer<N, S>(
    index: HnswIndex,
    data: SegmentCore,
    metric: Metric,
    kernel: Kernel<N, S>,
    query: Seq<u32>,
    k: nat,
    pass: spec_fn(u32) -> bool,
) -> Seq<(u32, u32)> where N: Fn(&[u32]) -> u32, S: Fn(Metric, &[u32], u32, &[u32], u32) -> u32 {
    let g = index.graph@;
    let key = query_key(data, metric, kernel, query);
    let ef = greater(index.params.ef_search as nat, k);
    if k == 0 || g.entry == EMPTY {
        Seq::empty()
    } else {
        let ep = fallen(g, key, g.entry, g.top, 0);
        scored(metric, widened(g, key, pass, ep, k, ef, greater(ef, g.rows.len()), 3), k)
    }
}

/// What is known of rows that a search of the ground layer ends with: they are nodes that pass
/// the filter, with their keys, in order.
spec fn orderly(
    g: GraphView,
    key: spec_fn(u32) -> u32,
    pass: spec_fn(u32) -> bool,
    out: Seq<Near>,
) -> bool {
    &&& ordered(out)
    &&& forall|i: int|
        0 <= i < out.len() ==> (#[trigger] out[i]).id < g.rows.len() && pass(out[i].id)
            && out[i].key == key(out[i].id)
}

/// What a search of the graph answers are rows that pass the filter, with their scores,
/// in order.
pub proof fn law_answers_present<N, S>(
    index: HnswIndex,
    data: SegmentCore,
    metric: Metric,
    kernel: Kernel<N, S>,
    query: Seq<u32>,
    k: nat,
    pass: spec_fn(u32) -> bool,
) where N: Fn(&[u32]) -> u32, S: Fn(Metric, &[u32], u32, &[u32], u32) -> u32
    requires
        index.fits(data),
    ensures
        presents(
            row_scores(kernel, metric, data.vectors@, data.norms@, data.dim as int, query),
            pass,
            metric,
            k,
            data.ids@.len(),
            answer(index, data, metric, kernel, query, k, pass),
        ),
{
    let g = index.graph@;
    let key = query_key(data, metric, kernel, query);
    let ef = greater(index.params.ef_search as nat, k);
    let scores = row_scores(kernel, metric, data.vectors@, data.norms@, data.dim as int, query);
    let out = answer(index, data, metric, kernel, query, k, pass);
    if !(k == 0 || g.entry == EMPTY) {
        let ep = fallen(g, key, g.entry, g.top, 0);
        let found = widened(g, key, pass, ep, k, ef, greater(ef, g.rows.len()), 3);
        lemma_fallen(g, key, g.entry, g.top, 0);
        lemma_widened(g, key, pass, ep, k, ef, greater(ef, g.rows.len()), 3);
        assert forall|i: int| 0 <= i < out.len() implies (#[trigger] out[i]).0 < data.ids@.len()
            && pass(out[i].0) && out[i].1 == scores(out[i].0) by {
            assert(found[i].id < g.rows.len());
            law_key_round_trip(metric, scores(found[i].id), scores(found[i].id));
        }
        assert forall|i: int, j: int| 0 <= i < j < out.len() implies rank(
            metric.key((#[trigger] out[i]).1),
        ) < rank(metric.key((#[trigger] out[j]).1)) || (out[i].1 == out[j].1 && out[i].0
            < out[j].0) by {
            assert(before(found[i], found[j]));
            law_key_round_trip(metric, found[i].key, found[j].key);
            law_key_round_trip(metric, found[j].key, found[i].key);
            crate::float::law_orders_agree(found[i].key, found[j].key);
        }
    }
}

/// What a search of the ground layer ends with are nodes that pass the filter, with their
/// keys, in order.
proof fn lemma_widened(
    g: GraphView,
    key: spec_fn(u32) -> u32,
    pass: spec_fn(u32) -> bool,
    ep: u32,
    k: nat,
    ef: nat,
    cap: nat,
    tries: nat,
)
    requires
        g.sound(),
        g.rows.len() < EMPTY,
        ep < g.rows.len(),
    ensures
        orderly(g, key, pass, widened(g, key, pass, ep, k, ef, cap, tries)),
    decreases tries,
{
    let found = found_on(g, key, pass, 0, seq![ep], ef);
    assert forall|i: int| 0 <= i < seq![ep].len() implies #[trigger] seq![ep][i]
        < g.rows.len() by {}
    if ef > 0 {
        law_search_ends(g, key, pass, 0, seq![ep], ef);
        let seen = choose|seen: Set<u32>| #[trigger]
            search_ends(g, key, pass, 0, seq![ep], ef, found, seen);
        assert forall|i: int| 0 <= i < found.len() implies (#[trigger] found[i]).id < g.rows.len()
            && pass(found[i].id) && found[i].key == key(found[i].id) by {
            assert(seen.contains(found[i].id));
        }
    }
    if !(found.len() >= k || ef >= cap || tries == 0) {
        lemma_widened(
            g,
            key,
            pass,
            ep,
            k,
            lesser(2 * ef as int, cap as int) as nat,
            cap,
            (tries - 1) as nat,
        );
    }
}

/// The greater of two numbers.
pub open spec fn greater(a: nat, b: nat) -> nat {
    if a < b {
        b
    } else {
        a
    }
}

impl HnswIndex {
    /// The graph can be searched, and its nodes are the rows of the segment.
    pub open spec fn fits(&self, data: SegmentCore) -> bool {
        &&& self.graph.valid()
        &&& self.graph.count == data.ids@.len()
    }

    /// Builds the index of a segment. It fails where the segment has too many rows.
    pub fn build<N, S>(
        data: &SegmentCore,
        metric: Metric,
        kernel: &Kernel<N, S>,
        params: HnswParams,
    ) -> (r: Result<Self, Error>) where
        N: Fn(&[u32]) -> u32,
        S: Fn(Metric, &[u32], u32, &[u32], u32) -> u32,

        requires
            data.valid(),
            kernel.valid(),
            data.ids@.len() < EMPTY ==> data.ids@.len() * params.m0 <= usize::MAX,
        ensures
            match r {
                Ok(index) => {
                    &&& data.ids@.len() < EMPTY
                    &&& index.fits(*data)
                    &&& index.graph.built()
                    &&& index.params == params
                    &&& index.graph.m == params.m
                    &&& index.graph.m0 == params.m0
                    &&& index.graph@ == built_of(data.ids@.len(), *data, metric, *kernel, params)
                    &&& data.ids@.len() <= params.m0 + 1 && data.ids@.len() <= params.ef_construct
                        ==> meshed(index.graph@, data.ids@.len())
                },
                Err(e) => {
                    &&& data.ids@.len() >= EMPTY
                    &&& e == Error::Invalid(Invalid::SegmentTooLarge)
                },
            },
    {
        let total: usize = data.len();
        if total >= EMPTY as usize {
            return Err(Error::Invalid(Invalid::SegmentTooLarge));
        }
        let count: u32 = total as u32;
        let mut graph = HnswGraph::new(count, &params);
        let mut rng = Rng::new(SEED);
        let mut idx: u32 = 0;
        proof {
            assert forall|k: u32| k < count implies #[trigger] untouched(graph@, k) by {}
        }
        while idx < count
            invariant
                idx <= count,
                count == data.ids@.len(),
                data.valid(),
                kernel.valid(),
                graph.built(),
                graph.count == count,
                graph.m == params.m,
                graph.m0 == params.m0,
                graph@ == built_of(idx as nat, *data, metric, *kernel, params),
                rng.state() == state_after(idx as nat),
                forall|k: u32| idx <= k < count ==> #[trigger] untouched(graph@, k),
                graph@.rows.len() == count,
                count <= params.m0 + 1 && count <= params.ef_construct ==> meshed(
                    graph@,
                    idx as nat,
                ),
            decreases count - idx,
        {
            let ghost before = graph@;
            assert(untouched(before, idx));
            graph.insert(idx, data, metric, kernel, &params, &mut rng);
            proof {
                assert forall|k: u32| idx + 1 <= k < count implies #[trigger] untouched(
                    graph@,
                    k,
                ) by {
                    assert(untouched(before, k));
                }
            }
            idx = idx + 1;
        }
        Ok(HnswIndex { graph, params })
    }

    /// The parameters of the index.
    pub fn params(&self) -> (r: HnswParams)
        ensures
            r == self.params,
    {
        self.params
    }

    /// The nearest rows that pass the filter, best first: at most `k` of them, each
    /// with its score.
    pub fn search<N, S, P>(
        &self,
        data: &SegmentCore,
        metric: Metric,
        kernel: &Kernel<N, S>,
        query: &[u32],
        k: usize,
        pass: &Option<P>,
    ) -> (out: Vec<(u32, u32)>) where
        N: Fn(&[u32]) -> u32,
        S: Fn(Metric, &[u32], u32, &[u32], u32) -> u32,
        P: RowFilter,

        requires
            self.fits(*data),
            data.valid(),
            kernel.valid(),
            filter_valid(*pass),
        ensures
            out@ == answer(*self, *data, metric, *kernel, query@, k as nat, admitted(*pass)),
    {
        if k == 0 || self.graph.entry == EMPTY {
            let out: Vec<(u32, u32)> = Vec::new();
            assert(out@ =~= Seq::<(u32, u32)>::empty());
            return out;
        }
        let ghost g = self.graph@;
        let ghost key = query_key(*data, metric, *kernel, query@);
        let ghost pf = admitted(*pass);
        let ctx = Ctx { graph: &self.graph, data, metric, kernel };
        let ep: u32 = descend_all(&ctx, query);

        let first: usize = if self.params.ef_search < k {
            k
        } else {
            self.params.ef_search
        };
        let count: usize = self.graph.count as usize;
        let cap: usize = if first < count {
            count
        } else {
            first
        };
        let mut eps: Vec<u32> = Vec::new();
        eps.push(ep);
        assert(eps@ =~= seq![ep]);
        let mut ef: usize = first;
        let mut found = search_layer(&ctx, query, eps.as_slice(), ef, 0, pass);
        let mut tries: u32 = 0;
        while found.len() < k && ef < cap && tries < 3
            invariant
                ctx.valid(),
                filter_valid(*pass),
                g == ctx.graph@,
                key == ctx.key(query@),
                pf == admitted(*pass),
                eps@ == seq![ep],
                ep < ctx.graph.count,
                ef > 0,
                k > 0,
                ef <= cap,
                tries <= 3,
                found@ == found_on(g, key, pf, 0, seq![ep], ef as nat),
                widened(
                    g,
                    key,
                    pf,
                    ep,
                    k as nat,
                    ef as nat,
                    cap as nat,
                    (3 - tries) as nat,
                ) == widened(g, key, pf, ep, k as nat, first as nat, cap as nat, 3),
            decreases 3 - tries,
        {
            let ghost ef0 = ef as nat;
            ef = if ef > cap - ef {
                cap
            } else {
                ef * 2
            };
            found = search_layer(&ctx, query, eps.as_slice(), ef, 0, pass);
            tries = tries + 1;
            proof {
                assert(ef == lesser(2 * ef0 as int, cap as int));
            }
        }
        let mut out: Vec<(u32, u32)> = Vec::new();
        let mut i: usize = 0;
        let n: usize = if k < found.len() {
            k
        } else {
            found.len()
        };
        while i < n
            invariant
                i <= n,
                n <= found.len(),
                n == lesser(k as int, found@.len() as int),
                out@ == scored(metric, found@, k as nat).take(i as int),
            decreases n - i,
        {
            out.push((found[i].id, to_score(metric, found[i].key)));
            assert(out@ =~= scored(metric, found@, k as nat).take(i + 1));
            i = i + 1;
        }
        assert(out@ =~= scored(metric, found@, k as nat));
        proof {
            assert(ep == fallen(g, key, g.entry, g.top, 0));
            assert(cap == greater(first as nat, g.rows.len()));
            assert(first == greater(self.params.ef_search as nat, k as nat));
        }
        out
    }

    /// Roughly how many bytes the graph takes.
    pub fn est_bytes(&self) -> (r: u64)
        ensures
            r == link_bytes(self.graph) % 0x1_0000_0000_0000_0000,
    {
        let mut upper: u64 = 0;
        let mut n: usize = 0;
        while n < self.graph.upper.len()
            invariant
                n <= self.graph.upper@.len(),
                upper == upper_links(self.graph.upper@.take(n as int)) % 0x1_0000_0000_0000_0000,
            decreases self.graph.upper.len() - n,
        {
            let layers = &self.graph.upper[n].layers;
            let mut l: usize = 0;
            let ghost base = upper_links(self.graph.upper@.take(n as int));
            while l < layers.len()
                invariant
                    l <= layers@.len(),
                    upper == (base + layer_links(layers@.take(l as int)))
                        % 0x1_0000_0000_0000_0000,
                decreases layers.len() - l,
            {
                assert(layers@.take(l + 1).drop_last() =~= layers@.take(l as int));
                upper = plus(
                    upper,
                    layers[l].len() as u64,
                    Ghost(base + layer_links(layers@.take(l as int))),
                    Ghost(layers@[l as int]@.len()),
                );
                l = l + 1;
            }
            proof {
                assert(layers@.take(layers@.len() as int) =~= layers@);
                assert(self.graph.upper@.take(n + 1).drop_last() =~= self.graph.upper@.take(
                    n as int,
                ));
            }
            n = n + 1;
        }
        assert(self.graph.upper@.take(n as int) =~= self.graph.upper@);
        let ghost a = self.graph.layer0@.len();
        let ghost b = upper_links(self.graph.upper@);
        let links: u64 = plus(self.graph.layer0.len() as u64, upper, Ghost(a), Ghost(b));
        let twice: u64 = plus(links, links, Ghost(a + b), Ghost(a + b));
        let all: u64 = plus(twice, twice, Ghost(2 * (a + b)), Ghost(2 * (a + b)));
        plus(
            self.graph.levels.len() as u64,
            all,
            Ghost(self.graph.levels@.len()),
            Ghost(4 * (a + b)),
        )
    }

    /// The name of the kind of index.
    pub fn kind(&self) -> (r: &'static str)
        ensures
            r@ == "hnsw"@,
    {
        "hnsw"
    }
}

/// How many links some lists hold.
pub open spec fn layer_links(layers: Seq<Vec<u32>>) -> nat
    decreases layers.len(),
{
    if layers.len() == 0 {
        0
    } else {
        layer_links(layers.drop_last()) + layers.last()@.len()
    }
}

/// How many links the layers above the ground layer hold.
pub open spec fn upper_links(upper: Seq<graph::UpperLinks>) -> nat
    decreases upper.len(),
{
    if upper.len() == 0 {
        0
    } else {
        upper_links(upper.drop_last()) + layer_links(upper.last().layers@)
    }
}

/// How many bytes the tables of a graph take: one for the highest layer of each node,
/// and four for each place of a link.
pub open spec fn link_bytes(g: HnswGraph) -> nat {
    g.levels@.len() + 4 * (g.layer0@.len() + upper_links(g.upper@))
}

/// Walks down from where searches start to the ground layer.
fn descend_all<N, S>(ctx: &Ctx<'_, N, S>, query: &[u32]) -> (ep: u32) where
    N: Fn(&[u32]) -> u32,
    S: Fn(Metric, &[u32], u32, &[u32], u32) -> u32,

    requires
        ctx.valid(),
        ctx.graph.entry != EMPTY,
    ensures
        ep < ctx.graph.count,
        ep == fallen(
            ctx.graph@,
            ctx.key(query@),
            ctx.graph.entry,
            ctx.graph.max_level as int,
            0,
        ),
{
    let ghost g = ctx.graph@;
    let ghost key = ctx.key(query@);
    let mut ep: u32 = ctx.graph.entry;
    let mut l: i32 = ctx.graph.max_level;
    while l > 0
        invariant
            ctx.valid(),
            g == ctx.graph@,
            key == ctx.key(query@),
            ep < ctx.graph.count,
            l <= ctx.graph.max_level,
            fallen(g, key, ep, l as int, 0) == fallen(
                g,
                key,
                ctx.graph.entry,
                ctx.graph.max_level as int,
                0,
            ),
        decreases l,
    {
        ep = greedy_descend(ctx, query, ep, l);
        l = l - 1;
    }
    ep
}

/// Descents lead to nodes.
proof fn lemma_fallen(g: GraphView, key: spec_fn(u32) -> u32, from: u32, hi: int, lo: int)
    requires
        g.sound(),
        from < g.rows.len(),
    ensures
        fallen(g, key, from, hi, lo) < g.rows.len(),
    decreases hi - lo,
{
    if hi > lo {
        lemma_descended(g, key, hi, from);
        lemma_fallen(g, key, descended(g, key, hi, from), hi - 1, lo);
    }
}

/// A descent leads to a node.
proof fn lemma_descended(g: GraphView, key: spec_fn(u32) -> u32, l: int, from: u32)
    requires
        g.sound(),
        from < g.rows.len(),
    ensures
        descended(g, key, l, from) < g.rows.len(),
    decreases place(key(from)) + 0x8000_0000,
{
    let row = g.nbrs(from as int, l);
    let next = closest(key, from, row);
    assert forall|i: int| 0 <= i < row.len() implies #[trigger] row[i] < g.rows.len() by {
        assert(g.rows[from as int][l][i] < g.rows.len());
    }
    lemma_closest(key, from, row, g.rows.len());
    if below(key(next), key(from)) {
        lemma_descended(g, key, l, next);
    }
}

/// The nearest of some nodes is one of them.
proof fn lemma_closest(key: spec_fn(u32) -> u32, node: u32, row: Seq<u32>, n: nat)
    requires
        node < n,
        forall|i: int| 0 <= i < row.len() ==> #[trigger] row[i] < n,
    ensures
        closest(key, node, row) < n,
    decreases row.len(),
{
    if row.len() > 0 {
        lemma_closest(key, node, row.drop_last(), n);
        assert(row[row.len() - 1] < n);
    }
}

/// Indexes of the same rows with the same parameters have the same graph.
pub proof fn law_same_rows_same_graph<N, S>(
    a: HnswIndex,
    b: HnswIndex,
    data: SegmentCore,
    metric: Metric,
    kernel: Kernel<N, S>,
    params: HnswParams,
) where N: Fn(&[u32]) -> u32, S: Fn(Metric, &[u32], u32, &[u32], u32) -> u32
    requires
        a.graph@ == built_of(data.ids@.len(), data, metric, kernel, params),
        b.graph@ == built_of(data.ids@.len(), data, metric, kernel, params),
        a.params == params,
        b.params == params,
        a.graph.built(),
        b.graph.built(),
        a.graph.m == params.m && b.graph.m == params.m,
        a.graph.m0 == params.m0 && b.graph.m0 == params.m0,
    ensures
        a.graph@ == b.graph@,
        image_of(a) == image_of(b),
{
    lemma_same_image(a, b);
}

/// The score of a row for a query vector, with the norm that is kept with the row.
pub open spec fn score_for<N, S>(
    data: SegmentCore,
    metric: Metric,
    kernel: Kernel<N, S>,
    query: Seq<u32>,
    x: u32,
) -> u32 where N: Fn(&[u32]) -> u32, S: Fn(Metric, &[u32], u32, &[u32], u32) -> u32 {
    kernel.score_of(
        metric,
        query,
        kernel.norm_of(query),
        data.row(x as int),
        data.norms@[x as int],
    )
}

/// Whether a link of a layer above the ground layer leads from one node to another.
pub open spec fn linked_above(g: GraphView, a: u32, b: u32) -> bool {
    exists|l: int| 1 <= l <= g.top && #[trigger] g.nbrs(a as int, l).contains(b)
}

/// A walk along links of the layers above the ground layer.
pub open spec fn goes_down(g: GraphView, p: Seq<u32>) -> bool {
    &&& p.len() > 0
    &&& forall|i: int| 0 <= i < p.len() - 1 ==> linked_above(g, #[trigger] p[i], p[i + 1])
}

/// Whether a search of the ground layer may start at a node: links above the ground layer lead
/// there from where searches start, it is the start itself or has a better score, and no link of
/// the layer above leads from it to a better one.
pub open spec fn starts_at<N, S>(
    index: HnswIndex,
    data: SegmentCore,
    metric: Metric,
    kernel: Kernel<N, S>,
    query: Seq<u32>,
    start: u32,
) -> bool where N: Fn(&[u32]) -> u32, S: Fn(Metric, &[u32], u32, &[u32], u32) -> u32 {
    let g = index.graph@;
    &&& start < g.rows.len()
    &&& exists|p: Seq<u32>| #[trigger] goes_down(g, p) && p[0] == g.entry && p.last() == start
    &&& start == g.entry || metric.better(
        score_for(data, metric, kernel, query, start),
        score_for(data, metric, kernel, query, g.entry),
    )
    &&& g.top >= 1 ==> forall|x: u32|
        g.nbrs(start as int, 1).contains(x) ==> !metric.better(
            #[trigger] score_for(data, metric, kernel, query, x),
            score_for(data, metric, kernel, query, start),
        )
}

/// Whether a search of the ground layer from a node may end with some rows. They pass the filter
/// and can be reached, the best first. If they are fewer than the search is wide, they are all such
/// rows; and a row that passes and that one of them is linked with is among them or no better than
/// the last of them.
pub open spec fn comes_to<N, S>(
    index: HnswIndex,
    data: SegmentCore,
    metric: Metric,
    kernel: Kernel<N, S>,
    query: Seq<u32>,
    pass: spec_fn(u32) -> bool,
    start: u32,
    width: nat,
    near: Seq<u32>,
) -> bool where N: Fn(&[u32]) -> u32, S: Fn(Metric, &[u32], u32, &[u32], u32) -> u32 {
    let g = index.graph@;
    &&& near.no_duplicates()
    &&& forall|i: int|
        0 <= i < near.len() ==> (#[trigger] near[i]) < g.rows.len() && pass(near[i]) && reachable(
            g,
            0,
            seq![start],
            near[i],
        )
    &&& forall|i: int, j: int|
        0 <= i < j < near.len() ==> !metric.better(
            score_for(data, metric, kernel, query, #[trigger] near[j]),
            score_for(data, metric, kernel, query, #[trigger] near[i]),
        )
    &&& near.len() < width ==> forall|x: u32|
        #![trigger near.contains(x)]
        pass(x) && reachable(g, 0, seq![start], x) ==> near.contains(x)
    &&& forall|i: int, x: u32|
        0 <= i < near.len() && g.nbrs((#[trigger] near[i]) as int, 0).contains(x) && pass(x)
            && !(#[trigger] near.contains(x)) ==> !metric.better(
            score_for(data, metric, kernel, query, x),
            score_for(data, metric, kernel, query, near.last()),
        )
}

/// A search of the graph for `k` rows gives the first `k` of those that a search of the ground
/// layer comes to which is as wide as `k` and as `ef_search` at least. It leaves out a row that
/// passes the filter only if it gives `k` rows, or that row cannot be reached on the ground layer
/// from where the search starts there.
pub proof fn law_graph_search_is_complete<N, S>(
    index: HnswIndex,
    data: SegmentCore,
    metric: Metric,
    kernel: Kernel<N, S>,
    query: Seq<u32>,
    k: nat,
    pass: spec_fn(u32) -> bool,
    out: Seq<(u32, u32)>,
) where N: Fn(&[u32]) -> u32, S: Fn(Metric, &[u32], u32, &[u32], u32) -> u32
    requires
        index.fits(data),
        index.graph@.entry != EMPTY,
        k > 0,
        out == answer(index, data, metric, kernel, query, k, pass),
    ensures
        out.len() <= k,
        exists|start: u32, width: nat, near: Seq<u32>| #[trigger]
            comes_to(index, data, metric, kernel, query, pass, start, width, near) && starts_at(
                index,
                data,
                metric,
                kernel,
                query,
                start,
            ) && width >= k && width >= index.params.ef_search && out.len() == (if near.len() < k {
                near.len()
            } else {
                k
            }) && (forall|i: int|
                0 <= i < out.len() ==> #[trigger] out[i] == (
                    near[i],
                    score_for(data, metric, kernel, query, near[i]),
                )),
        exists|start: u32| #[trigger]
            starts_at(index, data, metric, kernel, query, start) && forall|x: u32|
                pass(x) && #[trigger] reachable(index.graph@, 0, seq![start], x) ==> out.len() == k
                    || exists|i: int| 0 <= i < out.len() && (#[trigger] out[i]).0 == x,
{
    let g = index.graph@;
    let key = query_key(data, metric, kernel, query);
    let ef = greater(index.params.ef_search as nat, k);
    let cap = greater(ef, g.rows.len());
    let start = fallen(g, key, g.entry, g.top, 0);
    let found = widened(g, key, pass, start, k, ef, cap, 3);
    lemma_starts(index, data, metric, kernel, query);
    let e = lemma_widened_from(g, key, pass, start, k, ef, cap, 3);
    let near = ids_of(found);
    assert forall|i: int| 0 <= i < seq![start].len() implies #[trigger] seq![start][i]
        < g.rows.len() by {}
    law_search_ends(g, key, pass, 0, seq![start], e);
    let seen = choose|seen: Set<u32>| #[trigger]
        search_ends(g, key, pass, 0, seq![start], e, found, seen);
    lemma_ordered_ids_distinct(found, key);
    assert forall|x: u32, y: u32|
        #![trigger score_for(data, metric, kernel, query, x), score_for(data, metric, kernel, query, y)]
        metric.better(
            score_for(data, metric, kernel, query, x),
            score_for(data, metric, kernel, query, y),
        ) == below(key(x), key(y)) by {
        law_key_round_trip(
            metric,
            score_for(data, metric, kernel, query, x),
            score_for(data, metric, kernel, query, y),
        );
    }
    assert forall|i: int| 0 <= i < near.len() implies (#[trigger] near[i]) < g.rows.len() && pass(
        near[i],
    ) && reachable(g, 0, seq![start], near[i]) && found[i].key == key(near[i]) by {
        assert(seen.contains(found[i].id));
    }
    assert forall|i: int, j: int| 0 <= i < j < near.len() implies !below(
        key(#[trigger] near[j]),
        key(#[trigger] near[i]),
    ) by {
        assert(before(found[i], found[j]));
        law_orders_agree(found[j].key, found[i].key);
    }
    assert forall|x: u32| #[trigger] seen.contains(x) && pass(x) implies near.contains(x) || (
    near.len() == e && !below(key(x), key(near.last()))) by {
        let item = Near { id: x, key: key(x) };
        if found.contains(item) {
            let i = choose|i: int| 0 <= i < found.len() && found[i] == item;
            assert(near[i] == x);
        } else {
            assert(near[near.len() - 1] == found.last().id);
        }
    }
    assert(near.len() < e ==> forall|x: u32|
        #![trigger near.contains(x)]
        pass(x) && reachable(g, 0, seq![start], x) ==> near.contains(x)) by {
        if near.len() < e {
            assert forall|x: u32| #[trigger] seen.contains(x) implies all_seen(
                g.nbrs(x as int, 0),
                seen,
            ) by {}
            assert forall|x: u32|
                #![trigger near.contains(x)]
                pass(x) && reachable(g, 0, seq![start], x) implies near.contains(x) by {
                let p = choose|p: Seq<u32>| #[trigger]
                    is_path(g, 0, p) && seq![start].contains(p[0]) && p.last() == x;
                assert(p[0] == start);
                assert(seen.contains(seq![start][0]));
                lemma_closed(g, 0, p, seen, p.len() - 1);
            }
        }
    }
    assert forall|i: int, x: u32|
        0 <= i < near.len() && g.nbrs((#[trigger] near[i]) as int, 0).contains(x) && pass(x)
            && !(#[trigger] near.contains(x)) implies !below(key(x), key(near.last())) by {
        let row = g.nbrs(near[i] as int, 0);
        assert(all_seen(g.nbrs(found[i].id as int, 0), seen));
        let a = choose|a: int| 0 <= a < row.len() && row[a] == x;
        assert(seen.contains(row[a]));
    }
    assert(comes_to(index, data, metric, kernel, query, pass, start, e, near));
    assert forall|i: int| 0 <= i < out.len() implies #[trigger] out[i] == (
        near[i],
        score_for(data, metric, kernel, query, near[i]),
    ) by {
        law_key_round_trip(
            metric,
            score_for(data, metric, kernel, query, near[i]),
            score_for(data, metric, kernel, query, near[i]),
        );
    }
    assert(starts_at(index, data, metric, kernel, query, start));
    assert forall|x: u32|
        pass(x) && #[trigger] reachable(g, 0, seq![start], x) implies out.len() == k || exists|i: int|
        0 <= i < out.len() && (#[trigger] out[i]).0 == x by {
        if near.len() < k {
            assert(near.contains(x));
            let i = choose|i: int| 0 <= i < near.len() && near[i] == x;
            assert(out[i].0 == x);
        }
    }
}

/// The nearest of some nodes is one of them, and none is nearer.
proof fn lemma_closest_of(key: spec_fn(u32) -> u32, node: u32, row: Seq<u32>)
    ensures
        ({
            let best = closest(key, node, row);
            &&& best == node || (row.contains(best) && below(key(best), key(node)))
            &&& !below(key(node), key(best))
            &&& forall|i: int| 0 <= i < row.len() ==> !below(key(#[trigger] row[i]), key(best))
        }),
    decreases row.len(),
{
    if row.len() > 0 {
        let rest = row.drop_last();
        let best = closest(key, node, rest);
        lemma_closest_of(key, node, rest);
        if best != node {
            let i = choose|i: int| 0 <= i < rest.len() && rest[i] == best;
            assert(row[i] == best);
        }
        assert(row.contains(row[row.len() - 1]));
        assert forall|i: int| 0 <= i < row.len() implies !below(
            key(#[trigger] row[i]),
            key(closest(key, node, row)),
        ) by {
            if i < rest.len() {
                assert(row[i] == rest[i]);
            }
        }
    }
}

/// A descent on a layer leads along links to a node that has no nearer neighbour.
proof fn lemma_descent(g: GraphView, key: spec_fn(u32) -> u32, l: int, from: u32) -> (p: Seq<u32>)
    ensures
        ({
            let to = descended(g, key, l, from);
            &&& is_path(g, l, p)
            &&& p[0] == from
            &&& p.last() == to
            &&& to == from || below(key(to), key(from))
            &&& forall|x: u32| g.nbrs(to as int, l).contains(x) ==> !below(#[trigger] key(x), key(to))
        }),
    decreases place(key(from)) + 0x8000_0000,
{
    let row = g.nbrs(from as int, l);
    let next = closest(key, from, row);
    lemma_closest_of(key, from, row);
    if below(key(next), key(from)) {
        let rest = lemma_descent(g, key, l, next);
        let p = seq![from] + rest;
        assert(p.last() == rest.last());
        assert forall|i: int| 0 <= i < p.len() - 1 implies g.nbrs(
            #[trigger] p[i] as int,
            l,
        ).contains(p[i + 1]) by {
            if i > 0 {
                assert(p[i] == rest[i - 1] && p[i + 1] == rest[i - 1 + 1]);
            }
        }
        p
    } else {
        assert forall|x: u32| row.contains(x) implies !below(#[trigger] key(x), key(from)) by {
            let i = choose|i: int| 0 <= i < row.len() && row[i] == x;
            assert(!below(key(row[i]), key(next)));
        }
        seq![from]
    }
}

/// Descents on the layers down to the ground layer lead along links.
proof fn lemma_descents(g: GraphView, key: spec_fn(u32) -> u32, from: u32, hi: int) -> (p: Seq<u32>)
    requires
        hi <= g.top,
    ensures
        ({
            let to = fallen(g, key, from, hi, 0);
            &&& goes_down(g, p)
            &&& p[0] == from
            &&& p.last() == to
            &&& to == from || below(key(to), key(from))
            &&& hi >= 1 ==> forall|x: u32|
                g.nbrs(to as int, 1).contains(x) ==> !below(#[trigger] key(x), key(to))
        }),
    decreases hi,
{
    if hi <= 0 {
        seq![from]
    } else {
        let a = lemma_descent(g, key, hi, from);
        let b = lemma_descents(g, key, a.last(), hi - 1);
        let p = a + b.drop_first();
        assert(p.last() == b.last()) by {
            if b.len() == 1 {
                assert(p =~= a);
            }
        }
        assert forall|i: int| 0 <= i < p.len() - 1 implies linked_above(
            g,
            #[trigger] p[i],
            p[i + 1],
        ) by {
            if i < a.len() - 1 {
                assert(p[i] == a[i] && p[i + 1] == a[i + 1]);
                assert(g.nbrs(p[i] as int, hi).contains(p[i + 1]));
            } else {
                let j = i - (a.len() - 1);
                assert(p[i] == b[j] && p[i + 1] == b[j + 1]);
            }
        }
        assert(fallen(g, key, from, hi, 0) == fallen(g, key, a.last(), hi - 1, 0));
        if hi == 1 {
            assert(fallen(g, key, a.last(), 0, 0) == a.last());
        }
        p
    }
}

/// The search of the ground layer starts where the descents end.
proof fn lemma_starts<N, S>(
    index: HnswIndex,
    data: SegmentCore,
    metric: Metric,
    kernel: Kernel<N, S>,
    query: Seq<u32>,
) where N: Fn(&[u32]) -> u32, S: Fn(Metric, &[u32], u32, &[u32], u32) -> u32
    requires
        index.fits(data),
        index.graph@.entry != EMPTY,
    ensures
        starts_at(
            index,
            data,
            metric,
            kernel,
            query,
            fallen(
                index.graph@,
                query_key(data, metric, kernel, query),
                index.graph@.entry,
                index.graph@.top,
                0,
            ),
        ),
{
    let g = index.graph@;
    let key = query_key(data, metric, kernel, query);
    let start = fallen(g, key, g.entry, g.top, 0);
    lemma_fallen(g, key, g.entry, g.top, 0);
    let p = lemma_descents(g, key, g.entry, g.top);
    law_key_round_trip(
        metric,
        score_for(data, metric, kernel, query, start),
        score_for(data, metric, kernel, query, g.entry),
    );
    if g.top >= 1 {
        assert forall|x: u32| g.nbrs(start as int, 1).contains(x) implies !metric.better(
            #[trigger] score_for(data, metric, kernel, query, x),
            score_for(data, metric, kernel, query, start),
        ) by {
            law_key_round_trip(
                metric,
                score_for(data, metric, kernel, query, x),
                score_for(data, metric, kernel, query, start),
            );
            assert(!below(key(x), key(start)));
        }
    }
}

/// Repeated searches end with what one search finds, which is as wide as the first one at least.
proof fn lemma_widened_from(
    g: GraphView,
    key: spec_fn(u32) -> u32,
    pass: spec_fn(u32) -> bool,
    ep: u32,
    k: nat,
    ef: nat,
    cap: nat,
    tries: nat,
) -> (e: nat)
    requires
        ef <= cap,
    ensures
        e >= ef,
        widened(g, key, pass, ep, k, ef, cap, tries) == found_on(g, key, pass, 0, seq![ep], e),
    decreases tries,
{
    let found = found_on(g, key, pass, 0, seq![ep], ef);
    if found.len() >= k || ef >= cap || tries == 0 {
        ef
    } else {
        lemma_widened_from(
            g,
            key,
            pass,
            ep,
            k,
            lesser(2 * ef as int, cap as int) as nat,
            cap,
            (tries - 1) as nat,
        )
    }
}

} // verus!
