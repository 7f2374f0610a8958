//! Walking the graph: the search of a layer, the descent between layers, and the
//! choice of neighbours.

use roaring::RoaringBitmap;
use vstd::prelude::*;

use crate::bitmap::{bitmap_contains, bitmap_insert, empty_bitmap, rows_of};
use crate::float::{below, law_orders_agree, lt, nan, place};
use crate::index::hnsw::graph::{GraphView, HnswGraph};
use crate::index::queue::{
    before, hopeless, lemma_offered, lemma_put_in, lemma_slot_within, offer, offered, ordered,
    place_in, put_in, Near,
};
use crate::index::{admit_row, admitted, filter_valid, RowFilter};
use crate::kernel::{to_key, Kernel, Metric};
use crate::segment::data::SegmentCore;

verus! {

/// What a walk reads: the graph, the rows it connects, and how their distance is
/// measured.
pub struct Ctx<'a, N, S> {
    /// The graph.
    pub graph: &'a HnswGraph,
    /// The rows.
    pub data: &'a SegmentCore,
    /// The metric.
    pub metric: Metric,
    /// The arithmetic.
    pub kernel: &'a Kernel<N, S>,
}

/// The key of a row for a query vector.
pub open spec fn query_key<N, S>(
    data: SegmentCore,
    metric: Metric,
    kernel: Kernel<N, S>,
    query: Seq<u32>,
) -> spec_fn(u32) -> u32 where
    N: Fn(&[u32]) -> u32,
    S: Fn(Metric, &[u32], u32, &[u32], u32) -> u32,
 {
    |b: u32|
        metric.key(
            kernel.score_of(
                metric,
                query,
                kernel.norm_of(query),
                data.row(b as int),
                data.norms@[b as int],
            ),
        )
}

/// The key of one row for another.
pub open spec fn row_key<N, S>(data: SegmentCore, metric: Metric, kernel: Kernel<N, S>) -> spec_fn(
    u32,
    u32,
) -> u32 where N: Fn(&[u32]) -> u32, S: Fn(Metric, &[u32], u32, &[u32], u32) -> u32 {
    |a: u32, b: u32|
        metric.key(
            kernel.score_of(
                metric,
                data.row(a as int),
                kernel.norm_of(data.row(a as int)),
                data.row(b as int),
                data.norms@[b as int],
            ),
        )
}

/// The nodes of a sequence of rows.
pub open spec fn ids_of(s: Seq<Near>) -> Seq<u32> {
    Seq::new(s.len(), |i: int| s[i].id)
}

/// A walk along links of one layer.
pub open spec fn is_path(g: GraphView, l: int, p: Seq<u32>) -> bool {
    &&& p.len() > 0
    &&& forall|i: int|
        0 <= i < p.len() - 1 ==> g.nbrs(#[trigger] p[i] as int, l).contains(p[i + 1])
}

/// Whether a node can be reached on a layer from one of the starting nodes.
pub open spec fn reachable(g: GraphView, l: int, eps: Seq<u32>, x: u32) -> bool {
    exists|p: Seq<u32>| #[trigger] is_path(g, l, p) && eps.contains(p[0]) && p.last() == x
}

/// What is known once a search of a layer has seen the nodes `seen` and found `out`.
///
/// It has seen the starting nodes, and otherwise only nodes that can be reached from
/// them. What it found are nodes that it has seen and that pass the filter, with
/// their keys, in order, at most `ef` of them. A node that passes the filter and was
/// seen but not found is not nearer than the last that was found, and the same holds
/// of a node that was seen while some neighbour of it was not; either happens only
/// when `ef` nodes were found. All neighbours of what was found were seen.
pub open spec fn search_ends(
    g: GraphView,
    key: spec_fn(u32) -> u32,
    pass: spec_fn(u32) -> bool,
    l: int,
    eps: Seq<u32>,
    ef: nat,
    out: Seq<Near>,
    seen: Set<u32>,
) -> bool {
    &&& forall|i: int| 0 <= i < eps.len() ==> seen.contains(#[trigger] eps[i])
    &&& forall|x: u32| #[trigger] seen.contains(x) ==> x < g.rows.len() && reachable(g, l, eps, x)
    &&& ordered(out)
    &&& out.len() <= ef
    &&& forall|i: int|
        0 <= i < out.len() ==> seen.contains((#[trigger] out[i]).id) && pass(out[i].id)
            && out[i].key == key(out[i].id)
    &&& forall|x: u32| #[trigger]
        seen.contains(x) && pass(x) ==> out.contains(Near { id: x, key: key(x) }) || hopeless(
            out,
            ef,
            key(x),
        )
    &&& forall|x: u32| #[trigger]
        seen.contains(x) ==> all_seen(g.nbrs(x as int, l), seen) || hopeless(out, ef, key(x))
    &&& forall|i: int|
        0 <= i < out.len() ==> all_seen(g.nbrs((#[trigger] out[i]).id as int, l), seen)
}

/// Where a search of a layer stands: what it has found so far, the nodes that it is still to
/// open, nearest first, and those that it has seen.
pub struct Walk {
    /// The nearest nodes so far that pass the filter.
    pub found: Seq<Near>,
    /// The nodes that are still to be opened.
    pub cands: Seq<Near>,
    /// The nodes that were seen.
    pub seen: Set<u32>,
}

/// Where a search stands once it came to a node. One that it has seen changes nothing. Another
/// one is to be opened and, if it passes the filter, offered to what was found; but not if it is
/// hopeless already, unless the search starts there.
pub open spec fn met(
    w: Walk,
    key: spec_fn(u32) -> u32,
    pass: spec_fn(u32) -> bool,
    ef: nat,
    node: u32,
    first: bool,
) -> Walk {
    let item = Near { id: node, key: key(node) };
    let seen = w.seen.insert(node);
    if w.seen.contains(node) {
        w
    } else if first || !hopeless(w.found, ef, item.key) {
        let found = if pass(node) {
            offered(w.found, item, ef)
        } else {
            w.found
        };
        Walk { found, cands: put_in(w.cands, item), seen }
    } else {
        Walk { seen, ..w }
    }
}

/// Where a search stands once it came to some nodes, one after the other.
pub open spec fn met_all(
    w: Walk,
    key: spec_fn(u32) -> u32,
    pass: spec_fn(u32) -> bool,
    ef: nat,
    nodes: Seq<u32>,
    first: bool,
) -> Walk
    decreases nodes.len(),
{
    if nodes.len() == 0 {
        w
    } else {
        met(
            met_all(w, key, pass, ef, nodes.drop_last(), first),
            key,
            pass,
            ef,
            nodes.last(),
            first,
        )
    }
}

/// What a search finds that goes on from where it stands and opens at most `n` nodes. It opens
/// the nearest node, comes to its neighbours, and goes on like this; until no node is left to be
/// opened, or `ef` nodes were found and the nearest one left is farther than all of them.
#[verifier::opaque]
pub open spec fn walked(
    g: GraphView,
    key: spec_fn(u32) -> u32,
    pass: spec_fn(u32) -> bool,
    l: int,
    ef: nat,
    w: Walk,
    n: nat,
) -> Seq<Near>
    decreases n,
{
    if n == 0 || w.cands.len() == 0 {
        w.found
    } else if w.found.len() == ef && below(w.found.last().key, w.cands[0].key) {
        w.found
    } else {
        let rest = Walk { cands: w.cands.drop_first(), ..w };
        let row = g.nbrs(w.cands[0].id as int, l);
        walked(g, key, pass, l, ef, met_all(rest, key, pass, ef, row, false), (n - 1) as nat)
    }
}

/// Where a search stands that has seen nothing yet.
pub open spec fn nowhere() -> Walk {
    Walk { found: Seq::empty(), cands: Seq::empty(), seen: Set::empty() }
}

/// What a search of a layer from some nodes finds: the nearest first, at most `ef` of them. No
/// node is opened twice, so it opens no more nodes than there are.
pub open spec fn found_on(
    g: GraphView,
    key: spec_fn(u32) -> u32,
    pass: spec_fn(u32) -> bool,
    l: int,
    eps: Seq<u32>,
    ef: nat,
) -> Seq<Near> {
    if ef == 0 || eps.len() == 0 {
        Seq::empty()
    } else {
        walked(g, key, pass, l, ef, met_all(nowhere(), key, pass, ef, eps, true), g.rows.len())
    }
}

/// A search takes up no more nodes than it comes to see.
proof fn lemma_met_all(
    w: Walk,
    key: spec_fn(u32) -> u32,
    pass: spec_fn(u32) -> bool,
    ef: nat,
    nodes: Seq<u32>,
    first: bool,
)
    requires
        w.seen.finite(),
    ensures
        ({
            let v = met_all(w, key, pass, ef, nodes, first);
            &&& v.seen.finite()
            &&& v.cands.len() - w.cands.len() <= v.seen.len() - w.seen.len()
        }),
    decreases nodes.len(),
{
    if nodes.len() > 0 {
        lemma_met_all(w, key, pass, ef, nodes.drop_last(), first);
        let v = met_all(w, key, pass, ef, nodes.drop_last(), first);
        let item = Near { id: nodes.last(), key: key(nodes.last()) };
        lemma_slot_within(v.cands, item);
    }
}

/// Whether every node of a list was seen.
pub open spec fn all_seen(nodes: Seq<u32>, seen: Set<u32>) -> bool {
    forall|i: int| 0 <= i < nodes.len() ==> seen.contains(#[trigger] nodes[i])
}

/// Whether a search of a layer for the nearest `ef` nodes may find `out`.
pub open spec fn finds(
    g: GraphView,
    key: spec_fn(u32) -> u32,
    pass: spec_fn(u32) -> bool,
    l: int,
    eps: Seq<u32>,
    ef: nat,
    out: Seq<Near>,
) -> bool {
    exists|seen: Set<u32>| #[trigger] search_ends(g, key, pass, l, eps, ef, out, seen)
}

/// A search that may find as many nodes as there are finds every node that can be
/// reached and passes the filter.
pub proof fn law_wide_search_is_exhaustive(
    g: GraphView,
    key: spec_fn(u32) -> u32,
    pass: spec_fn(u32) -> bool,
    l: int,
    eps: Seq<u32>,
    ef: nat,
    out: Seq<Near>,
    x: u32,
)
    requires
        finds(g, key, pass, l, eps, ef, out),
        ef > g.rows.len(),
        reachable(g, l, eps, x),
        pass(x),
    ensures
        out.contains(Near { id: x, key: key(x) }),
{
    let seen = choose|seen: Set<u32>| #[trigger]
        search_ends(g, key, pass, l, eps, ef, out, seen);
    lemma_ordered_ids_distinct(out, key);
    assert(out.len() <= g.rows.len()) by {
        let ids = ids_of(out);
        assert(ids.no_duplicates());
        assert forall|i: int| 0 <= i < ids.len() implies 0 <= #[trigger] ids[i] < g.rows.len() by {
            assert(seen.contains(out[i].id));
        }
        lemma_distinct_bounded(ids, g.rows.len());
    }
    let p = choose|p: Seq<u32>| #[trigger]
        is_path(g, l, p) && eps.contains(p[0]) && p.last() == x;
    lemma_closed(g, l, p, seen, p.len() - 1);
}

/// A walk from a node that was seen does not leave the nodes that were seen, where all links of
/// these lead to such nodes.
pub proof fn lemma_closed(g: GraphView, l: int, p: Seq<u32>, seen: Set<u32>, i: int)
    requires
        is_path(g, l, p),
        seen.contains(p[0]),
        forall|x: u32| #[trigger] seen.contains(x) ==> all_seen(g.nbrs(x as int, l), seen),
        0 <= i < p.len(),
    ensures
        seen.contains(p[i]),
    decreases i,
{
    if i > 0 {
        lemma_closed(g, l, p, seen, i - 1);
        let row = g.nbrs(p[i - 1] as int, l);
        assert(row.contains(p[i - 1 + 1]));
        let k = choose|k: int| 0 <= k < row.len() && row[k] == p[i];
        assert(seen.contains(row[k]));
    }
}

/// Nodes in order are different.
pub proof fn lemma_ordered_ids_distinct(s: Seq<Near>, key: spec_fn(u32) -> u32)
    requires
        ordered(s),
        forall|i: int| 0 <= i < s.len() ==> (#[trigger] s[i]).key == key(s[i].id),
    ensures
        ids_of(s).no_duplicates(),
{
    assert forall|i: int, j: int|
        0 <= i < ids_of(s).len() && 0 <= j < ids_of(s).len() && i != j implies ids_of(s)[i]
        != ids_of(s)[j] by {
        assert(s[i].key == key(s[i].id) && s[j].key == key(s[j].id));
        if i < j {
            assert(before(s[i], s[j]));
        } else {
            assert(before(s[j], s[i]));
        }
    }
}

/// Different numbers below `n` are at most `n`.
pub proof fn lemma_distinct_bounded(ids: Seq<u32>, n: nat)
    requires
        ids.no_duplicates(),
        forall|i: int| 0 <= i < ids.len() ==> 0 <= #[trigger] ids[i] < n,
    ensures
        ids.len() <= n,
{
    let s = ids.map_values(|x: u32| x as int);
    assert(s.no_duplicates());
    s.unique_seq_to_set();
    let range = vstd::set_lib::set_int_range(0, n as int);
    vstd::set_lib::lemma_int_range(0, n as int);
    assert(s.to_set().subset_of(range));
    vstd::set_lib::lemma_len_subset(s.to_set(), range);
}

/// Whether a descent on a layer may lead from one node to another: along links to
/// ever nearer nodes, to one that has no nearer neighbour.
pub open spec fn descends(
    g: GraphView,
    key: spec_fn(u32) -> u32,
    l: int,
    from: u32,
    to: u32,
) -> bool {
    &&& exists|p: Seq<u32>| #[trigger]
        is_path(g, l, p) && p[0] == from && p.last() == to && nearing(key, p)
    &&& forall|i: int|
        0 <= i < g.nbrs(to as int, l).len() ==> !below(
            key(#[trigger] g.nbrs(to as int, l)[i]),
            key(to),
        )
}

/// Each node of a walk is nearer than the one before it.
pub open spec fn nearing(key: spec_fn(u32) -> u32, p: Seq<u32>) -> bool {
    forall|i: int| 0 <= i < p.len() - 1 ==> below(key(p[i + 1]), key(#[trigger] p[i]))
}

/// The nearest of a node and some others; the first of them where several are as near, and the
/// node itself where none is nearer.
pub open spec fn closest(key: spec_fn(u32) -> u32, node: u32, row: Seq<u32>) -> u32
    decreases row.len(),
{
    if row.len() == 0 {
        node
    } else {
        let best = closest(key, node, row.drop_last());
        if below(key(row.last()), key(best)) {
            row.last()
        } else {
            best
        }
    }
}

/// Where a descent on a layer ends: it goes to the nearest neighbour again and again, as long as
/// that one is nearer.
pub open spec fn descended(g: GraphView, key: spec_fn(u32) -> u32, l: int, from: u32) -> u32
    decreases place(key(from)) + 0x8000_0000,
{
    let next = closest(key, from, g.nbrs(from as int, l));
    if below(key(next), key(from)) {
        descended(g, key, l, next)
    } else {
        from
    }
}

/// The neighbours chosen out of some candidates, nearest first: at most `m` of them.
/// Where there are more candidates, one is chosen only if it is nearer to the centre
/// than to every neighbour chosen before it.
pub open spec fn chosen(between: spec_fn(u32, u32) -> u32, cands: Seq<Near>, m: nat) -> Seq<u32> {
    if cands.len() <= m {
        ids_of(cands)
    } else {
        diverse(between, cands, m)
    }
}

/// The candidates that are nearer to the centre than to each one taken before, up to
/// `m` of them.
pub open spec fn diverse(between: spec_fn(u32, u32) -> u32, cands: Seq<Near>, m: nat) -> Seq<u32>
    decreases cands.len(),
{
    if cands.len() == 0 {
        Seq::empty()
    } else {
        let taken = diverse(between, cands.drop_last(), m);
        let c = cands.last();
        if taken.len() < m && apart(between, taken, c) {
            taken.push(c.id)
        } else {
            taken
        }
    }
}

/// Whether a candidate is nearer to the centre than to each of some nodes.
pub open spec fn apart(between: spec_fn(u32, u32) -> u32, taken: Seq<u32>, c: Near) -> bool {
    forall|i: int| 0 <= i < taken.len() ==> below(c.key, between(c.id, #[trigger] taken[i]))
}

/// The chosen neighbours are candidates, and not too many.
pub proof fn lemma_chosen(between: spec_fn(u32, u32) -> u32, cands: Seq<Near>, m: nat)
    ensures
        chosen(between, cands, m).len() <= m,
        forall|i: int|
            0 <= i < chosen(between, cands, m).len() ==> ids_of(cands).contains(
                #[trigger] chosen(between, cands, m)[i],
            ),
{
    if cands.len() <= m {
        let ids = ids_of(cands);
        assert forall|i: int| 0 <= i < ids.len() implies ids.contains(#[trigger] ids[i]) by {}
    } else {
        lemma_diverse(between, cands, m);
    }
}

/// Nodes that are taken are candidates, and not too many.
pub proof fn lemma_diverse(between: spec_fn(u32, u32) -> u32, cands: Seq<Near>, m: nat)
    ensures
        diverse(between, cands, m).len() <= m,
        forall|i: int|
            0 <= i < diverse(between, cands, m).len() ==> ids_of(cands).contains(
                #[trigger] diverse(between, cands, m)[i],
            ),
    decreases cands.len(),
{
    if cands.len() > 0 {
        let t = cands.drop_last();
        lemma_diverse(between, t, m);
        let d = diverse(between, cands, m);
        assert forall|i: int| 0 <= i < d.len() implies ids_of(cands).contains(#[trigger] d[i]) by {
            let dt = diverse(between, t, m);
            if i < dt.len() {
                assert(ids_of(t).contains(dt[i]));
                let k = choose|k: int| 0 <= k < ids_of(t).len() && ids_of(t)[k] == dt[i];
                assert(ids_of(cands)[k] == dt[i]);
            } else {
                assert(ids_of(cands)[cands.len() - 1] == d[i]);
            }
        }
    }
}

impl<'a, N, S> Ctx<'a, N, S> where
    N: Fn(&[u32]) -> u32,
    S: Fn(Metric, &[u32], u32, &[u32], u32) -> u32,
 {
    /// The graph can be walked, and each node is a row.
    pub open spec fn valid(&self) -> bool {
        &&& self.graph.valid()
        &&& self.data.valid()
        &&& self.graph.count <= self.data.ids@.len()
        &&& self.kernel.valid()
    }

    /// The keys of the rows for a query vector.
    pub open spec fn key(&self, query: Seq<u32>) -> spec_fn(u32) -> u32 {
        query_key(*self.data, self.metric, *self.kernel, query)
    }

    /// The keys of the rows for each other.
    pub open spec fn between(&self) -> spec_fn(u32, u32) -> u32 {
        row_key(*self.data, self.metric, *self.kernel)
    }

    /// The key of a row for a query vector of norm `q_norm`.
    pub fn q_key(&self, query: &[u32], q_norm: u32, b: u32) -> (r: u32)
        requires
            self.valid(),
            b < self.graph.count,
            q_norm == self.kernel.norm_of(query@),
        ensures
            r == (self.key(query@))(b),
    {
        let score: u32 = self.kernel.score_with(
            self.metric,
            query,
            q_norm,
            self.data.vector(b),
            self.data.norm(b),
        );
        to_key(self.metric, score)
    }

    /// The key of row `b` for row `a`.
    pub fn node_key(&self, a: u32, b: u32) -> (r: u32)
        requires
            self.valid(),
            a < self.graph.count,
            b < self.graph.count,
        ensures
            r == (self.between())(a, b),
    {
        let score: u32 = self.kernel.score(
            self.metric,
            self.data.vector(a),
            self.data.vector(b),
            self.data.norm(b),
        );
        to_key(self.metric, score)
    }
}

/// Walks on a layer from a node to ever nearer ones, up to one that has no nearer
/// neighbour.
pub fn greedy_descend<N, S>(ctx: &Ctx<'_, N, S>, query: &[u32], start: u32, level: i32) -> (r:
    u32) where N: Fn(&[u32]) -> u32, S: Fn(Metric, &[u32], u32, &[u32], u32) -> u32
    requires
        ctx.valid(),
        start < ctx.graph.count,
        level >= 0,
    ensures
        r < ctx.graph.count,
        r == descended(ctx.graph@, ctx.key(query@), level as int, start),
        descends(ctx.graph@, ctx.key(query@), level as int, start, r),
{
    let ghost g = ctx.graph@;
    let ghost key = ctx.key(query@);
    let q_norm: u32 = ctx.kernel.norm(query);
    let mut ep: u32 = start;
    let mut best: u32 = ctx.q_key(query, q_norm, ep);
    let ghost mut path: Seq<u32> = seq![start];
    loop
        invariant
            ctx.valid(),
            level >= 0,
            g == ctx.graph@,
            key == ctx.key(query@),
            q_norm == ctx.kernel.norm_of(query@),
            ep < ctx.graph.count,
            best == key(ep),
            is_path(g, level as int, path),
            path[0] == start,
            path.last() == ep,
            nearing(key, path),
            descended(g, key, level as int, ep) == descended(g, key, level as int, start),
        ensures
            ep < ctx.graph.count,
            ep == descended(g, key, level as int, start),
            is_path(g, level as int, path),
            path[0] == start,
            path.last() == ep,
            nearing(key, path),
            forall|i: int|
                0 <= i < g.nbrs(ep as int, level as int).len() ==> !below(
                    key(#[trigger] g.nbrs(ep as int, level as int)[i]),
                    key(ep),
                ),
        decreases place(best) + 0x8000_0000,
    {
        let row = ctx.graph.neighbours(ep, level);
        let mut next: u32 = ep;
        let mut near: u32 = best;
        let mut i: usize = 0;
        while i < row.len()
            invariant
                ctx.valid(),
                g == ctx.graph@,
                key == ctx.key(query@),
                q_norm == ctx.kernel.norm_of(query@),
                i <= row.len(),
                ep < ctx.graph.count,
                row@ == g.nbrs(ep as int, level as int),
                level >= 0,
                next < ctx.graph.count,
                near == key(next),
                best == key(ep),
                next == ep || (row@.contains(next) && below(near, best)),
                next == closest(key, ep, row@.take(i as int)),
                next == ep ==> forall|k: int|
                    0 <= k < i ==> !below(key(#[trigger] row@[k]), key(ep)),
            decreases row.len() - i,
        {
            let nbr: u32 = row[i];
            assert(nbr < ctx.graph.count) by {
                assert(g.rows[ep as int][level as int][i as int] < g.rows.len());
            }
            assert(row@.take(i + 1).drop_last() =~= row@.take(i as int));
            let d: u32 = ctx.q_key(query, q_norm, nbr);
            if lt(d, near) {
                assert(below(d, best));
                near = d;
                next = nbr;
            }
            i = i + 1;
        }
        assert(row@.take(row@.len() as int) =~= row@);
        if next == ep {
            break;
        }
        proof {
            let longer = path.push(next);
            assert forall|k: int| 0 <= k < longer.len() - 1 implies g.nbrs(
                #[trigger] longer[k] as int,
                level as int,
            ).contains(longer[k + 1]) by {
                if k < path.len() - 1 {
                    assert(longer[k] == path[k] && longer[k + 1] == path[k + 1]);
                } else {
                    assert(longer[k] == ep);
                }
            }
            assert forall|k: int| 0 <= k < longer.len() - 1 implies below(
                key(longer[k + 1]),
                key(#[trigger] longer[k]),
            ) by {
                if k < path.len() - 1 {
                    assert(longer[k] == path[k] && longer[k + 1] == path[k + 1]);
                }
            }
            path = longer;
        }
        ep = next;
        best = near;
    }
    ep
}

/// What a search of a layer keeps to, between its start and its end. It has seen
/// `seen`, is still to open `cands`, and has found `found` so far. The node `open` is being
/// opened. A node that was found is still to be opened, or being opened, or all its neighbours
/// were seen.
#[verifier::opaque]
spec fn searching(
    g: GraphView,
    key: spec_fn(u32) -> u32,
    pass: spec_fn(u32) -> bool,
    l: int,
    eps: Seq<u32>,
    ef: nat,
    found: Seq<Near>,
    cands: Seq<Near>,
    seen: Set<u32>,
    open: Option<u32>,
) -> bool {
    &&& forall|x: u32| #[trigger] seen.contains(x) ==> x < g.rows.len() && reachable(g, l, eps, x)
    &&& ordered(found)
    &&& ordered(cands)
    &&& found.len() <= ef
    &&& forall|i: int|
        0 <= i < found.len() ==> seen.contains((#[trigger] found[i]).id) && pass(found[i].id)
            && found[i].key == key(found[i].id)
    &&& forall|i: int|
        0 <= i < cands.len() ==> seen.contains((#[trigger] cands[i]).id) && cands[i].key == key(
            cands[i].id,
        )
    &&& forall|x: u32| #[trigger]
        seen.contains(x) && pass(x) ==> found.contains(Near { id: x, key: key(x) }) || hopeless(
            found,
            ef,
            key(x),
        )
    &&& forall|x: u32| #[trigger]
        seen.contains(x) && open != Some(x) ==> cands.contains(Near { id: x, key: key(x) })
            || all_seen(g.nbrs(x as int, l), seen) || hopeless(found, ef, key(x))
    &&& forall|i: int|
        0 <= i < found.len() ==> open == Some((#[trigger] found[i]).id) || cands.contains(found[i])
            || all_seen(g.nbrs(found[i].id as int, l), seen)
}

/// Where a search stands, by what it holds.
spec fn walk(found: Vec<Near>, cands: Vec<Near>, visited: RoaringBitmap) -> Walk {
    Walk { found: found@, cands: cands@, seen: rows_of(visited) }
}

/// A search keeps to it where it comes to a node.
proof fn lemma_met(
    g: GraphView,
    key: spec_fn(u32) -> u32,
    pass: spec_fn(u32) -> bool,
    l: int,
    eps: Seq<u32>,
    ef: nat,
    w: Walk,
    node: u32,
    first: bool,
    open: Option<u32>,
)
    requires
        searching(g, key, pass, l, eps, ef, w.found, w.cands, w.seen, open),
        ef > 0,
        node < g.rows.len(),
        reachable(g, l, eps, node),
    ensures
        ({
            let v = met(w, key, pass, ef, node, first);
            &&& searching(g, key, pass, l, eps, ef, v.found, v.cands, v.seen, open)
            &&& v.seen == w.seen.insert(node)
        }),
{
    reveal(searching);
    let v = met(w, key, pass, ef, node, first);
    let item = Near { id: node, key: key(node) };
    assert(w.seen.contains(node) ==> w.seen.insert(node) =~= w.seen);
    if !w.seen.contains(node) {
        let f0 = w.found;
        let c0 = w.cands;
        if f0.contains(item) {
            let i = choose|i: int| 0 <= i < f0.len() && f0[i] == item;
            assert(w.seen.contains(f0[i].id));
        }
        if c0.contains(item) {
            let i = choose|i: int| 0 <= i < c0.len() && c0[i] == item;
            assert(w.seen.contains(c0[i].id));
        }
        lemma_put_in(c0, item);
        lemma_offered(f0, item, ef);
        let f = v.found;
        let c = v.cands;
        assert forall|i: int| 0 <= i < f.len() implies v.seen.contains((#[trigger] f[i]).id)
            && pass(f[i].id) && f[i].key == key(f[i].id) by {
            assert(f.contains(f[i]));
            if f0.contains(f[i]) {
                let k = choose|k: int| 0 <= k < f0.len() && f0[k] == f[i];
                assert(w.seen.contains(f0[k].id));
            }
        }
        assert forall|i: int| 0 <= i < c.len() implies v.seen.contains((#[trigger] c[i]).id)
            && c[i].key == key(c[i].id) by {
            assert(c.contains(c[i]));
            if c0.contains(c[i]) {
                let k = choose|k: int| 0 <= k < c0.len() && c0[k] == c[i];
                assert(w.seen.contains(c0[k].id));
            }
        }
        assert forall|x: u32| #[trigger] v.seen.contains(x) && pass(x) implies f.contains(
            Near { id: x, key: key(x) },
        ) || hopeless(f, ef, key(x)) by {
            let nx = Near { id: x, key: key(x) };
            if x != node {
                assert(w.seen.contains(x));
                assert(f0.contains(nx) || hopeless(f0, ef, key(x)));
            }
        }
        assert forall|x: u32| #[trigger] v.seen.contains(x) && open != Some(x) implies c.contains(
            Near { id: x, key: key(x) },
        ) || all_seen(g.nbrs(x as int, l), v.seen) || hopeless(f, ef, key(x)) by {
            let nx = Near { id: x, key: key(x) };
            if x != node {
                assert(w.seen.contains(x));
                if all_seen(g.nbrs(x as int, l), w.seen) {
                    assert(all_seen(g.nbrs(x as int, l), v.seen));
                }
            }
        }
        assert forall|i: int| 0 <= i < f.len() implies open == Some((#[trigger] f[i]).id)
            || c.contains(f[i]) || all_seen(g.nbrs(f[i].id as int, l), v.seen) by {
            assert(f.contains(f[i]));
            if f0.contains(f[i]) {
                let k = choose|k: int| 0 <= k < f0.len() && f0[k] == f[i];
                assert(open == Some(f0[k].id) || c0.contains(f0[k]) || all_seen(
                    g.nbrs(f0[k].id as int, l),
                    w.seen,
                ));
                if all_seen(g.nbrs(f0[k].id as int, l), w.seen) {
                    assert(all_seen(g.nbrs(f0[k].id as int, l), v.seen));
                }
            }
        }
    }
}

/// A search keeps to it where it comes to some nodes.
proof fn lemma_met_each(
    g: GraphView,
    key: spec_fn(u32) -> u32,
    pass: spec_fn(u32) -> bool,
    l: int,
    eps: Seq<u32>,
    ef: nat,
    w: Walk,
    nodes: Seq<u32>,
    first: bool,
    open: Option<u32>,
)
    requires
        searching(g, key, pass, l, eps, ef, w.found, w.cands, w.seen, open),
        ef > 0,
        forall|i: int|
            0 <= i < nodes.len() ==> (#[trigger] nodes[i]) < g.rows.len() && reachable(
                g,
                l,
                eps,
                nodes[i],
            ),
    ensures
        ({
            let v = met_all(w, key, pass, ef, nodes, first);
            &&& searching(g, key, pass, l, eps, ef, v.found, v.cands, v.seen, open)
            &&& w.seen.subset_of(v.seen)
            &&& all_seen(nodes, v.seen)
        }),
    decreases nodes.len(),
{
    if nodes.len() > 0 {
        let rest = nodes.drop_last();
        assert forall|i: int| 0 <= i < rest.len() implies (#[trigger] rest[i]) < g.rows.len()
            && reachable(g, l, eps, rest[i]) by {
            assert(rest[i] == nodes[i]);
        }
        lemma_met_each(g, key, pass, l, eps, ef, w, rest, first, open);
        let u = met_all(w, key, pass, ef, rest, first);
        let last = nodes[nodes.len() - 1];
        lemma_met(g, key, pass, l, eps, ef, u, last, first, open);
        let v = met_all(w, key, pass, ef, nodes, first);
        assert forall|i: int| 0 <= i < nodes.len() implies v.seen.contains(#[trigger] nodes[i]) by {
            if i < rest.len() {
                assert(u.seen.contains(rest[i]));
            }
        }
    }
}

/// A node that was opened has all its neighbours seen.
proof fn lemma_visited(
    g: GraphView,
    key: spec_fn(u32) -> u32,
    pass: spec_fn(u32) -> bool,
    l: int,
    eps: Seq<u32>,
    ef: nat,
    w: Walk,
    node: u32,
)
    requires
        searching(g, key, pass, l, eps, ef, w.found, w.cands, w.seen, Some(node)),
        ef > 0,
        g.sound(),
        w.seen.contains(node),
    ensures
        ({
            let v = met_all(w, key, pass, ef, g.nbrs(node as int, l), false);
            &&& searching(g, key, pass, l, eps, ef, v.found, v.cands, v.seen, None)
            &&& w.seen.subset_of(v.seen)
        }),
{
    let row = g.nbrs(node as int, l);
    assert(node < g.rows.len() && reachable(g, l, eps, node)) by {
        reveal(searching);
    }
    assert forall|i: int| 0 <= i < row.len() implies (#[trigger] row[i]) < g.rows.len()
        && reachable(g, l, eps, row[i]) by {
        assert(g.rows[node as int][l][i] < g.rows.len());
        assert(row.contains(row[i]));
        lemma_step(g, l, eps, node, row[i]);
    }
    lemma_met_each(g, key, pass, l, eps, ef, w, row, false, Some(node));
    reveal(searching);
}

/// What a search ends with that goes on from where it stands.
proof fn lemma_walk_ends(
    g: GraphView,
    key: spec_fn(u32) -> u32,
    pass: spec_fn(u32) -> bool,
    l: int,
    eps: Seq<u32>,
    ef: nat,
    w: Walk,
    n: nat,
)
    requires
        searching(g, key, pass, l, eps, ef, w.found, w.cands, w.seen, None),
        ef > 0,
        g.sound(),
        g.rows.len() <= u32::MAX,
        w.cands.len() + g.rows.len() - n <= w.seen.len(),
        forall|i: int| 0 <= i < eps.len() ==> w.seen.contains(#[trigger] eps[i]),
    ensures
        finds(g, key, pass, l, eps, ef, walked(g, key, pass, l, ef, w, n)),
    decreases n,
{
    lemma_seen_all(g, key, pass, l, eps, ef, w.found, w.cands, w.seen, None);
    if w.cands.len() == 0 {
        reveal(walked);
        lemma_exhausted(g, key, pass, l, eps, ef, w.found, w.cands, w.seen);
    } else {
        lemma_walked(g, key, pass, l, ef, w, n);
        if w.found.len() == ef && below(w.found.last().key, w.cands[0].key) {
            lemma_stop(g, key, pass, l, eps, ef, w.found, w.cands, w.seen);
        } else {
            let rest = Walk { cands: w.cands.drop_first(), ..w };
            let node = w.cands[0].id;
            let row = g.nbrs(node as int, l);
            lemma_opened(g, key, pass, l, eps, ef, w.found, w.cands, w.seen);
            lemma_visited(g, key, pass, l, eps, ef, rest, node);
            lemma_met_all(rest, key, pass, ef, row, false);
            lemma_walk_ends(
                g,
                key,
                pass,
                l,
                eps,
                ef,
                met_all(rest, key, pass, ef, row, false),
                (n - 1) as nat,
            );
        }
    }
}

/// Nothing stands against a search that has seen nothing.
proof fn lemma_nowhere(
    g: GraphView,
    key: spec_fn(u32) -> u32,
    pass: spec_fn(u32) -> bool,
    l: int,
    eps: Seq<u32>,
    ef: nat,
)
    requires
        forall|i: int| 0 <= i < eps.len() ==> #[trigger] eps[i] < g.rows.len(),
    ensures
        searching(
            g,
            key,
            pass,
            l,
            eps,
            ef,
            nowhere().found,
            nowhere().cands,
            nowhere().seen,
            None,
        ),
        forall|i: int|
            0 <= i < eps.len() ==> (#[trigger] eps[i]) < g.rows.len() && reachable(
                g,
                l,
                eps,
                eps[i],
            ),
{
    reveal(searching);
    assert forall|i: int| 0 <= i < eps.len() implies (#[trigger] eps[i]) < g.rows.len()
        && reachable(g, l, eps, eps[i]) by {
        let p = seq![eps[i]];
        assert(is_path(g, l, p));
        assert(eps.contains(p[0]));
    }
}

/// What a search of a layer finds is near: whatever it has seen and not found is not nearer, and
/// what it has not opened is not nearer either.
pub proof fn law_search_ends(
    g: GraphView,
    key: spec_fn(u32) -> u32,
    pass: spec_fn(u32) -> bool,
    l: int,
    eps: Seq<u32>,
    ef: nat,
)
    requires
        g.sound(),
        g.rows.len() <= u32::MAX,
        ef > 0,
        eps.len() > 0,
        forall|i: int| 0 <= i < eps.len() ==> #[trigger] eps[i] < g.rows.len(),
    ensures
        finds(g, key, pass, l, eps, ef, found_on(g, key, pass, l, eps, ef)),
{
    lemma_nowhere(g, key, pass, l, eps, ef);
    lemma_met_each(g, key, pass, l, eps, ef, nowhere(), eps, true, None);
    lemma_met_all(nowhere(), key, pass, ef, eps, true);
    lemma_walk_ends(
        g,
        key,
        pass,
        l,
        eps,
        ef,
        met_all(nowhere(), key, pass, ef, eps, true),
        g.rows.len(),
    );
}

proof fn lemma_exhausted(
    g: GraphView,
    key: spec_fn(u32) -> u32,
    pass: spec_fn(u32) -> bool,
    l: int,
    eps: Seq<u32>,
    ef: nat,
    found: Seq<Near>,
    cands: Seq<Near>,
    seen: Set<u32>,
)
    requires
        searching(g, key, pass, l, eps, ef, found, cands, seen, None),
        cands.len() == 0,
        forall|i: int| 0 <= i < eps.len() ==> seen.contains(#[trigger] eps[i]),
    ensures
        search_ends(g, key, pass, l, eps, ef, found, seen),
{
    reveal(searching);
    assert forall|x: u32| #[trigger] seen.contains(x) implies all_seen(g.nbrs(x as int, l), seen)
        || hopeless(found, ef, key(x)) by {
        assert(!cands.contains(Near { id: x, key: key(x) }));
    }
    assert forall|i: int| 0 <= i < found.len() implies all_seen(
        g.nbrs((#[trigger] found[i]).id as int, l),
        seen,
    ) by {
        assert(!cands.contains(found[i]));
    }
}

proof fn lemma_stop(
    g: GraphView,
    key: spec_fn(u32) -> u32,
    pass: spec_fn(u32) -> bool,
    l: int,
    eps: Seq<u32>,
    ef: nat,
    found: Seq<Near>,
    cands: Seq<Near>,
    seen: Set<u32>,
)
    requires
        searching(g, key, pass, l, eps, ef, found, cands, seen, None),
        cands.len() > 0,
        found.len() == ef,
        ef > 0,
        below(found.last().key, cands[0].key),
        forall|i: int| 0 <= i < eps.len() ==> seen.contains(#[trigger] eps[i]),
    ensures
        search_ends(g, key, pass, l, eps, ef, found, seen),
{
    reveal(searching);
    let w = found.last().key;
    assert forall|x: u32| #[trigger] seen.contains(x) implies all_seen(g.nbrs(x as int, l), seen)
        || hopeless(found, ef, key(x)) by {
        let nx = Near { id: x, key: key(x) };
        if cands.contains(nx) {
            let i = choose|i: int| 0 <= i < cands.len() && cands[i] == nx;
            if i > 0 {
                assert(before(cands[0], cands[i]));
            }
            law_orders_agree(w, cands[0].key);
            law_orders_agree(key(x), w);
        }
    }
    assert forall|i: int| 0 <= i < found.len() implies all_seen(
        g.nbrs((#[trigger] found[i]).id as int, l),
        seen,
    ) by {
        if cands.contains(found[i]) {
            let j = choose|j: int| 0 <= j < cands.len() && cands[j] == found[i];
            if j > 0 {
                assert(before(cands[0], cands[j]));
            }
            if i < found.len() - 1 {
                assert(before(found[i], found[found.len() - 1]));
            }
            law_orders_agree(w, cands[0].key);
        }
    }
}

proof fn lemma_opened(
    g: GraphView,
    key: spec_fn(u32) -> u32,
    pass: spec_fn(u32) -> bool,
    l: int,
    eps: Seq<u32>,
    ef: nat,
    found: Seq<Near>,
    cands: Seq<Near>,
    seen: Set<u32>,
)
    requires
        searching(g, key, pass, l, eps, ef, found, cands, seen, None),
        cands.len() > 0,
    ensures
        searching(
            g,
            key,
            pass,
            l,
            eps,
            ef,
            found,
            cands.drop_first(),
            seen,
            Some(cands[0].id),
        ),
        seen.contains(cands[0].id),
{
    reveal(searching);
    let rest = cands.drop_first();
    assert forall|x: u32| #[trigger] seen.contains(x) && Some(cands[0].id) != Some(
        x,
    ) implies rest.contains(Near { id: x, key: key(x) }) || all_seen(g.nbrs(x as int, l), seen)
        || hopeless(found, ef, key(x)) by {
        let nx = Near { id: x, key: key(x) };
        if cands.contains(nx) {
            let i = choose|i: int| 0 <= i < cands.len() && cands[i] == nx;
            assert(i > 0);
            assert(rest[i - 1] == nx);
        }
    }
    assert forall|i: int| 0 <= i < found.len() implies Some(cands[0].id) == Some(
        (#[trigger] found[i]).id,
    ) || rest.contains(found[i]) || all_seen(g.nbrs(found[i].id as int, l), seen) by {
        if cands.contains(found[i]) {
            let j = choose|j: int| 0 <= j < cands.len() && cands[j] == found[i];
            if j > 0 {
                assert(rest[j - 1] == found[i]);
            }
        }
    }
    assert forall|i: int, j: int| 0 <= i < j < rest.len() implies before(
        #[trigger] rest[i],
        #[trigger] rest[j],
    ) by {
        assert(before(cands[i + 1], cands[j + 1]));
    }
    assert forall|i: int| 0 <= i < rest.len() implies seen.contains((#[trigger] rest[i]).id)
        && rest[i].key == key(rest[i].id) by {
        assert(seen.contains(cands[i + 1].id));
    }
}

proof fn lemma_step(g: GraphView, l: int, eps: Seq<u32>, x: u32, y: u32)
    requires
        reachable(g, l, eps, x),
        g.nbrs(x as int, l).contains(y),
    ensures
        reachable(g, l, eps, y),
{
    let p = choose|p: Seq<u32>| #[trigger]
        is_path(g, l, p) && eps.contains(p[0]) && p.last() == x;
    let q = p.push(y);
    assert forall|i: int| 0 <= i < q.len() - 1 implies g.nbrs(#[trigger] q[i] as int, l).contains(
        q[i + 1],
    ) by {
        if i < p.len() - 1 {
            assert(q[i] == p[i] && q[i + 1] == p[i + 1]);
        }
    }
    assert(is_path(g, l, q));
    assert(q[0] == p[0] && q.last() == y);
}

/// A search sees nodes only, and holds them in order.
proof fn lemma_seen_all(
    g: GraphView,
    key: spec_fn(u32) -> u32,
    pass: spec_fn(u32) -> bool,
    l: int,
    eps: Seq<u32>,
    ef: nat,
    found: Seq<Near>,
    cands: Seq<Near>,
    seen: Set<u32>,
    open: Option<u32>,
)
    requires
        searching(g, key, pass, l, eps, ef, found, cands, seen, open),
        g.rows.len() <= u32::MAX,
    ensures
        forall|x: u32| #[trigger] seen.contains(x) ==> x < g.rows.len() && reachable(g, l, eps, x),
        seen.finite(),
        seen.len() <= g.rows.len(),
        found.len() <= ef,
        ordered(found),
        ordered(cands),
{
    reveal(searching);
    crate::bitmap::lemma_rows_below(seen, g.rows.len());
}

/// What a search finds once it opened one more node.
proof fn lemma_walked(
    g: GraphView,
    key: spec_fn(u32) -> u32,
    pass: spec_fn(u32) -> bool,
    l: int,
    ef: nat,
    w: Walk,
    n: nat,
)
    requires
        w.cands.len() > 0,
        n > 0,
    ensures
        ({
            let rest = Walk { cands: w.cands.drop_first(), ..w };
            let row = g.nbrs(w.cands[0].id as int, l);
            walked(g, key, pass, l, ef, w, n) == (if w.found.len() == ef && below(
                w.found.last().key,
                w.cands[0].key,
            ) {
                w.found
            } else {
                walked(
                    g,
                    key,
                    pass,
                    l,
                    ef,
                    met_all(rest, key, pass, ef, row, false),
                    (n - 1) as nat,
                )
            })
        }),
{
    reveal(walked);
}

/// Comes to some nodes in a search, one after the other.
fn meet_nodes<N, S, P>(
    ctx: &Ctx<'_, N, S>,
    query: &[u32],
    q_norm: u32,
    nodes: &[u32],
    ef: usize,
    pass: &Option<P>,
    first: bool,
    found: &mut Vec<Near>,
    cands: &mut Vec<Near>,
    visited: &mut RoaringBitmap,
    Ghost(l): Ghost<int>,
    Ghost(eps): Ghost<Seq<u32>>,
    Ghost(open): Ghost<Option<u32>>,
) where
    N: Fn(&[u32]) -> u32,
    S: Fn(Metric, &[u32], u32, &[u32], u32) -> u32,
    P: RowFilter,

    requires
        ctx.valid(),
        filter_valid(*pass),
        ef > 0,
        q_norm == ctx.kernel.norm_of(query@),
        searching(
            ctx.graph@,
            ctx.key(query@),
            admitted(*pass),
            l,
            eps,
            ef as nat,
            old(found)@,
            old(cands)@,
            rows_of(*old(visited)),
            open,
        ),
        forall|i: int|
            0 <= i < nodes@.len() ==> (#[trigger] nodes@[i]) < ctx.graph.count && reachable(
                ctx.graph@,
                l,
                eps,
                nodes@[i],
            ),
    ensures
        walk(*final(found), *final(cands), *final(visited)) == met_all(
            walk(*old(found), *old(cands), *old(visited)),
            ctx.key(query@),
            admitted(*pass),
            ef as nat,
            nodes@,
            first,
        ),
{
    let ghost g = ctx.graph@;
    let ghost key = ctx.key(query@);
    let ghost pf = admitted(*pass);
    let ghost w0 = walk(*found, *cands, *visited);
    let mut i: usize = 0;
    assert(nodes@.take(0) =~= Seq::<u32>::empty());
    while i < nodes.len()
        invariant
            ctx.valid(),
            filter_valid(*pass),
            g == ctx.graph@,
            key == ctx.key(query@),
            pf == admitted(*pass),
            ef > 0,
            q_norm == ctx.kernel.norm_of(query@),
            i <= nodes.len(),
            forall|i: int|
                0 <= i < nodes@.len() ==> (#[trigger] nodes@[i]) < ctx.graph.count && reachable(
                    g,
                    l,
                    eps,
                    nodes@[i],
                ),
            searching(
                g,
                key,
                pf,
                l,
                eps,
                ef as nat,
                found@,
                cands@,
                rows_of(*visited),
                open,
            ),
            walk(*found, *cands, *visited) == met_all(
                w0,
                key,
                pf,
                ef as nat,
                nodes@.take(i as int),
                first,
            ),
        decreases nodes.len() - i,
    {
        let node: u32 = nodes[i];
        let ghost w = walk(*found, *cands, *visited);
        proof {
            assert(nodes@.take(i + 1).drop_last() =~= nodes@.take(i as int));
            lemma_seen_all(g, key, pf, l, eps, ef as nat, found@, cands@, w.seen, open);
            lemma_met(g, key, pf, l, eps, ef as nat, w, node, first, open);
        }
        if !bitmap_contains(visited, node) {
            let d: u32 = ctx.q_key(query, q_norm, node);
            let item = Near { id: node, key: d };
            bitmap_insert(visited, node);
            let full: bool = found.len() == ef;
            if first || !full || lt(d, found[found.len() - 1].key) {
                place_in(cands, item);
                if admit_row(pass, node) {
                    offer(found, item, ef);
                }
            }
        }
        assert(walk(*found, *cands, *visited) == met(w, key, pf, ef as nat, node, first));
        i = i + 1;
    }
    assert(nodes@.take(nodes@.len() as int) =~= nodes@);
}

/// Searches a layer from the starting nodes for the `ef` nearest nodes that pass the
/// filter. Nodes that do not pass are walked through all the same.
pub fn search_layer<N, S, P>(
    ctx: &Ctx<'_, N, S>,
    query: &[u32],
    eps: &[u32],
    ef: usize,
    level: i32,
    pass: &Option<P>,
) -> (out: Vec<Near>) where
    N: Fn(&[u32]) -> u32,
    S: Fn(Metric, &[u32], u32, &[u32], u32) -> u32,
    P: RowFilter,

    requires
        ctx.valid(),
        filter_valid(*pass),
        level >= 0,
        forall|i: int| 0 <= i < eps@.len() ==> #[trigger] eps@[i] < ctx.graph.count,
    ensures
        out@ == found_on(
            ctx.graph@,
            ctx.key(query@),
            admitted(*pass),
            level as int,
            eps@,
            ef as nat,
        ),
        ef > 0 && eps@.len() > 0 ==> finds(
            ctx.graph@,
            ctx.key(query@),
            admitted(*pass),
            level as int,
            eps@,
            ef as nat,
            out@,
        ),
{
    let mut found: Vec<Near> = Vec::new();
    if ef == 0 || eps.len() == 0 {
        assert(found@ =~= Seq::<Near>::empty());
        return found;
    }
    let ghost g = ctx.graph@;
    let ghost key = ctx.key(query@);
    let ghost pf = admitted(*pass);
    let ghost l = level as int;
    let q_norm: u32 = ctx.kernel.norm(query);
    let mut visited = empty_bitmap();
    let mut cands: Vec<Near> = Vec::new();
    proof {
        let w = walk(found, cands, visited);
        assert(w.found =~= nowhere().found && w.cands =~= nowhere().cands);
        assert(w.seen =~= nowhere().seen);
        lemma_nowhere(g, key, pf, l, eps@, ef as nat);
        lemma_met_each(g, key, pf, l, eps@, ef as nat, nowhere(), eps@, true, None);
        lemma_met_all(nowhere(), key, pf, ef as nat, eps@, true);
        law_search_ends(g, key, pf, l, eps@, ef as nat);
    }
    meet_nodes(
        ctx,
        query,
        q_norm,
        eps,
        ef,
        pass,
        true,
        &mut found,
        &mut cands,
        &mut visited,
        Ghost(l),
        Ghost(eps@),
        Ghost(None),
    );
    let ghost goal = found_on(g, key, pf, l, eps@, ef as nat);
    let ghost mut left: nat = g.rows.len();
    loop
        invariant_except_break
            searching(g, key, pf, l, eps@, ef as nat, found@, cands@, rows_of(visited), None),
            walked(g, key, pf, l, ef as nat, walk(found, cands, visited), left) == goal,
            cands@.len() + g.rows.len() - left <= rows_of(visited).len(),
        invariant
            ctx.valid(),
            filter_valid(*pass),
            g == ctx.graph@,
            key == ctx.key(query@),
            pf == admitted(*pass),
            l == level,
            level >= 0,
            ef > 0,
            q_norm == ctx.kernel.norm_of(query@),
        ensures
            found@ == goal,
        decreases left,
    {
        let ghost w = walk(found, cands, visited);
        proof {
            lemma_seen_all(g, key, pf, l, eps@, ef as nat, w.found, w.cands, w.seen, None);
        }
        if cands.len() == 0 {
            proof {
                reveal(walked);
            }
            break;
        }
        proof {
            lemma_walked(g, key, pf, l, ef as nat, w, left);
        }
        let node = cands.remove(0);
        if found.len() == ef && lt(found[found.len() - 1].key, node.key) {
            break;
        }
        proof {
            assert(cands@ =~= w.cands.drop_first());
            lemma_opened(g, key, pf, l, eps@, ef as nat, w.found, w.cands, w.seen);
            assert(w.seen.contains(node.id));
        }
        let row = ctx.graph.neighbours(node.id, level);
        let ghost rest = walk(found, cands, visited);
        proof {
            assert(rest == (Walk { cands: w.cands.drop_first(), ..w }));
            lemma_visited(g, key, pf, l, eps@, ef as nat, rest, node.id);
            lemma_met_all(rest, key, pf, ef as nat, row@, false);
            assert forall|i: int| 0 <= i < row@.len() implies (#[trigger] row@[i])
                < ctx.graph.count && reachable(g, l, eps@, row@[i]) by {
                assert(g.rows[node.id as int][l][i] < g.rows.len());
                assert(row@.contains(row@[i]));
                lemma_step(g, l, eps@, node.id, row@[i]);
            }
        }
        meet_nodes(
            ctx,
            query,
            q_norm,
            row,
            ef,
            pass,
            false,
            &mut found,
            &mut cands,
            &mut visited,
            Ghost(l),
            Ghost(eps@),
            Ghost(Some(node.id)),
        );
        proof {
            left = (left - 1) as nat;
        }
    }
    found
}

/// Chooses neighbours out of candidates that come nearest first.
pub fn select_heuristic<N, S>(ctx: &Ctx<'_, N, S>, cands: &Vec<Near>, m: usize) -> (r: Vec<
    u32,
>) where N: Fn(&[u32]) -> u32, S: Fn(Metric, &[u32], u32, &[u32], u32) -> u32
    requires
        ctx.valid(),
        forall|i: int| 0 <= i < cands@.len() ==> (#[trigger] cands@[i]).id < ctx.graph.count,
    ensures
        r@ == chosen(ctx.between(), cands@, m as nat),
{
    let ghost between = ctx.between();
    let mut r: Vec<u32> = Vec::new();
    let mut i: usize = 0;
    if cands.len() <= m {
        while i < cands.len()
            invariant
                i <= cands.len(),
                r@ == ids_of(cands@).take(i as int),
            decreases cands.len() - i,
        {
            r.push(cands[i].id);
            assert(r@ =~= ids_of(cands@).take(i + 1));
            i = i + 1;
        }
        assert(ids_of(cands@).take(i as int) =~= ids_of(cands@));
        return r;
    }
    while i < cands.len()
        invariant
            ctx.valid(),
            between == ctx.between(),
            i <= cands.len(),
            forall|i: int| 0 <= i < cands@.len() ==> (#[trigger] cands@[i]).id < ctx.graph.count,
            r@ == diverse(between, cands@.take(i as int), m as nat),
            forall|k: int| 0 <= k < r@.len() ==> #[trigger] r@[k] < ctx.graph.count,
        decreases cands.len() - i,
    {
        proof {
            assert(cands@.take(i + 1).drop_last() =~= cands@.take(i as int));
            lemma_diverse(between, cands@.take(i as int), m as nat);
        }
        let c = cands[i];
        if r.len() < m {
            let mut fits: bool = true;
            let mut j: usize = 0;
            while j < r.len() && fits
                invariant
                    ctx.valid(),
                    between == ctx.between(),
                    c.id < ctx.graph.count,
                    j <= r.len(),
                    forall|k: int| 0 <= k < r@.len() ==> #[trigger] r@[k] < ctx.graph.count,
                    fits ==> forall|k: int|
                        0 <= k < j ==> below(c.key, between(c.id, #[trigger] r@[k])),
                    !fits ==> !apart(between, r@, c),
                decreases r.len() - j,
            {
                let d: u32 = ctx.node_key(c.id, r[j]);
                if !lt(c.key, d) {
                    fits = false;
                    assert(!below(c.key, between(c.id, r@[j as int])));
                }
                j = j + 1;
            }
            if fits {
                assert(apart(between, r@, c));
                r.push(c.id);
            }
        }
        i = i + 1;
    }
    assert(cands@.take(cands@.len() as int) =~= cands@);
    r
}

/// Of more candidates than a node may have links, the nearest one is always chosen. One is chosen only
/// if it is nearer to the node than to each one chosen before; and one is left out only if it is not,
/// or if there are as many already as there may be.
pub proof fn law_chosen_neighbours(between: spec_fn(u32, u32) -> u32, cands: Seq<Near>, m: nat, i: int)
    requires
        0 <= i < cands.len(),
    ensures
        ({
            let r = chosen(between, cands, m);
            &&& r.len() <= m
            &&& cands.len() <= m ==> r.len() == cands.len() && r[i] == cands[i].id
            &&& m > 0 ==> r.len() > 0 && r[0] == cands[0].id
            &&& cands.len() > m ==> r.contains(cands[i].id) || r.len() == m || exists|j: int|
                0 <= j < r.len() && !below(cands[i].key, between(cands[i].id, #[trigger] r[j]))
            &&& cands.len() > m ==> forall|a: int, b: int|
                0 <= a < b < r.len() ==> chosen_for(between, cands, #[trigger] r[a], #[trigger] r[b])
        }),
{
    if cands.len() > m {
        lemma_diverse_chosen(between, cands, m);
        let r = chosen(between, cands, m);
        assert(left_out(between, cands, r, m, i));
    }
}

/// Whether a node is that of a candidate which is nearer to the centre than to another node.
pub open spec fn chosen_for(
    between: spec_fn(u32, u32) -> u32,
    cands: Seq<Near>,
    other: u32,
    node: u32,
) -> bool {
    exists|i: int|
        0 <= i < cands.len() && (#[trigger] cands[i]).id == node && below(
            cands[i].key,
            between(node, other),
        )
}

/// Whether a candidate is chosen, or there is a reason why it is not.
spec fn left_out(
    between: spec_fn(u32, u32) -> u32,
    cands: Seq<Near>,
    r: Seq<u32>,
    m: nat,
    i: int,
) -> bool {
    r.contains(cands[i].id) || r.len() == m || exists|j: int|
        0 <= j < r.len() && !below(cands[i].key, between(cands[i].id, #[trigger] r[j]))
}

/// Which candidates are taken.
proof fn lemma_diverse_chosen(between: spec_fn(u32, u32) -> u32, cands: Seq<Near>, m: nat)
    ensures
        ({
            let r = diverse(between, cands, m);
            &&& r.len() <= m
            &&& m > 0 && cands.len() > 0 ==> r.len() > 0 && r[0] == cands[0].id
            &&& forall|i: int| 0 <= i < cands.len() ==> #[trigger] left_out(between, cands, r, m, i)
            &&& forall|a: int, b: int|
                0 <= a < b < r.len() ==> chosen_for(between, cands, #[trigger] r[a], #[trigger] r[b])
        }),
    decreases cands.len(),
{
    if cands.len() > 0 {
        let rest = cands.drop_last();
        let c = cands.last();
        let n = cands.len() - 1;
        let taken = diverse(between, rest, m);
        let r = diverse(between, cands, m);
        lemma_diverse_chosen(between, rest, m);
        assert forall|i: int| 0 <= i < cands.len() implies #[trigger] left_out(
            between,
            cands,
            r,
            m,
            i,
        ) by {
            if i < n {
                assert(left_out(between, rest, taken, m, i));
                assert(rest[i] == cands[i]);
                if taken.contains(cands[i].id) {
                    let j = choose|j: int| 0 <= j < taken.len() && taken[j] == cands[i].id;
                    assert(r[j] == cands[i].id);
                } else if taken.len() != m {
                    let j = choose|j: int|
                        0 <= j < taken.len() && !below(
                            rest[i].key,
                            between(rest[i].id, #[trigger] taken[j]),
                        );
                    assert(r[j] == taken[j]);
                }
            } else if r.len() > taken.len() {
                assert(r[taken.len() as int] == c.id);
            }
        }
        assert forall|a: int, b: int| 0 <= a < b < r.len() implies chosen_for(
            between,
            cands,
            #[trigger] r[a],
            #[trigger] r[b],
        ) by {
            assert(r[a] == taken[a]);
            if b < taken.len() {
                assert(r[b] == taken[b]);
                assert(chosen_for(between, rest, taken[a], taken[b]));
                let i = choose|i: int|
                    0 <= i < rest.len() && (#[trigger] rest[i]).id == taken[b] && below(
                        rest[i].key,
                        between(taken[b], taken[a]),
                    );
                assert(cands[i] == rest[i]);
            } else {
                assert(cands[n].id == r[b]);
                assert(below(c.key, between(c.id, taken[a])));
            }
        }
        if m > 0 && rest.len() > 0 {
            assert(rest[0] == cands[0]);
        }
    }
}

/// The key of one row for another is its key for the vector of the other one.
pub proof fn law_row_keys<N, S>(
    data: SegmentCore,
    metric: Metric,
    kernel: Kernel<N, S>,
    a: u32,
    b: u32,
) where N: Fn(&[u32]) -> u32, S: Fn(Metric, &[u32], u32, &[u32], u32) -> u32
    ensures
        row_key(data, metric, kernel)(a, b) == query_key(data, metric, kernel, data.row(a as int))(
            b,
        ),
        metric.key(query_key(data, metric, kernel, data.row(a as int))(b)) == kernel.score_of(
            metric,
            data.row(a as int),
            kernel.norm_of(data.row(a as int)),
            data.row(b as int),
            data.norms@[b as int],
        ),
{
    let s = kernel.score_of(
        metric,
        data.row(a as int),
        kernel.norm_of(data.row(a as int)),
        data.row(b as int),
        data.norms@[b as int],
    );
    crate::kernel::law_key_round_trip(metric, s, s);
}

/// A step of a descent goes to the nearest of the links: no other is nearer, and those before it are
/// farther. It goes nowhere where no link is nearer.
pub proof fn law_descent_steps(key: spec_fn(u32) -> u32, node: u32, row: Seq<u32>)
    ensures
        ({
            let best = closest(key, node, row);
            &&& forall|i: int| 0 <= i < row.len() ==> !below(key(#[trigger] row[i]), key(best))
            &&& best == node || exists|i: int|
                0 <= i < row.len() && #[trigger] row[i] == best && below(key(best), key(node))
                    && forall|j: int| 0 <= j < i ==> !below(key(#[trigger] row[j]), key(best)) && (
                nan(key(row[j])) || below(key(best), key(row[j])))
        }),
    decreases row.len(),
{
    if row.len() > 0 {
        let rest = row.drop_last();
        let before = closest(key, node, rest);
        let best = closest(key, node, row);
        law_descent_steps(key, node, rest);
        let n = row.len() - 1;
        assert forall|i: int| 0 <= i < row.len() implies !below(key(#[trigger] row[i]), key(best)) by {
            if i < n {
                assert(row[i] == rest[i]);
            }
        }
        if below(key(row.last()), key(before)) {
            assert(row[n] == best);
            assert forall|j: int| 0 <= j < n implies !below(key(#[trigger] row[j]), key(best)) && (
            nan(key(row[j])) || below(key(best), key(row[j]))) by {
                assert(row[j] == rest[j]);
                assert(!below(key(rest[j]), key(before)));
            }
            if before != node {
                let i = choose|i: int|
                    0 <= i < rest.len() && #[trigger] rest[i] == before && below(
                        key(before),
                        key(node),
                    );
            }
            assert(below(key(best), key(node)));
        } else if before != node {
            let i = choose|i: int|
                0 <= i < rest.len() && #[trigger] rest[i] == before && below(key(before), key(node))
                    && forall|j: int|
                    0 <= j < i ==> !below(key(#[trigger] rest[j]), key(before)) && (nan(
                        key(rest[j]),
                    ) || below(key(before), key(rest[j])));
            assert(row[i] == best);
            assert forall|j: int| 0 <= j < i implies !below(key(#[trigger] row[j]), key(best)) && (
            nan(key(row[j])) || below(key(best), key(row[j]))) by {
                assert(row[j] == rest[j]);
            }
        }
    }
}

} // verus!
