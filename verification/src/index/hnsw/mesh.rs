//! Small graphs: where every node can be linked with every other one, it is, and a search leaves out
//! nothing that it should give.

use vstd::prelude::*;

use crate::float::nan;
use crate::index::hnsw::graph::{GraphView, EMPTY};
use crate::index::hnsw::insert::{everything, joined, linked, linked_all};
use crate::index::hnsw::traversal::{
    all_seen, chosen, finds, ids_of, is_path, lemma_distinct_bounded, reachable, search_ends,
};
use crate::index::hnsw::{
    answer, comes_to, law_graph_search_is_complete, score_for, starts_at, HnswIndex,
};
use crate::index::queue::Near;
use crate::kernel::{law_better_and_thresholds, Kernel, Metric};
use crate::segment::data::SegmentCore;

verus! {

/// Whether searches start somewhere, and each of the first `n` nodes is linked with each other one
/// of them on the ground layer.
pub open spec fn meshed(g: GraphView, n: nat) -> bool {
    &&& n > 0 ==> g.entry != EMPTY
    &&& forall|a: int, b: u32|
        0 <= a < n && b < n && a != b ==> #[trigger] g.nbrs(a, 0).contains(b)
    &&& forall|a: int| 0 <= a < n ==> (#[trigger] g.nbrs(a, 0)).len() < n
}

/// A search of the ground layer finds all nodes where these are linked with each other.
pub proof fn lemma_found_mesh(
    g: GraphView,
    key: spec_fn(u32) -> u32,
    eps: Seq<u32>,
    ef: nat,
    out: Seq<Near>,
    n: nat,
)
    requires
        meshed(g, n),
        n < ef,
        eps.len() > 0,
        eps[0] < n,
        finds(g, key, everything(), 0, eps, ef, out),
        ids_of(out).no_duplicates(),
        forall|i: int| 0 <= i < out.len() ==> (#[trigger] ids_of(out)[i]) < n,
    ensures
        out.len() <= n,
        forall|b: u32| b < n ==> #[trigger] ids_of(out).contains(b),
{
    let ids = ids_of(out);
    lemma_distinct_bounded(ids, n);
    let seen = choose|seen: Set<u32>| #[trigger]
        search_ends(g, key, everything(), 0, eps, ef, out, seen);
    assert forall|b: u32| b < n implies #[trigger] ids.contains(b) by {
        let a = eps[0];
        assert(seen.contains(eps[0]));
        if a != b {
            let row = g.nbrs(a as int, 0);
            assert(all_seen(row, seen));
            assert(row.contains(b));
            let i = choose|i: int| 0 <= i < row.len() && row[i] == b;
            assert(seen.contains(row[i]));
        }
        assert(everything()(b));
        let item = Near { id: b, key: key(b) };
        assert(out.contains(item));
        let i = choose|i: int| 0 <= i < out.len() && out[i] == item;
        assert(ids[i] == b);
    }
}

/// What links back on the ground layer do where there is place for them.
proof fn lemma_links_back(
    g: GraphView,
    between: spec_fn(u32, u32) -> u32,
    nodes: Seq<u32>,
    idx: u32,
    cap: nat,
)
    requires
        nodes.no_duplicates(),
        forall|i: int|
            0 <= i < nodes.len() ==> (#[trigger] nodes[i]) < g.rows.len() && nodes[i] != idx
                && g.rows[nodes[i] as int].len() > 0 && g.nbrs(nodes[i] as int, 0).len() < cap,
    ensures
        ({
            let h = linked_all(g, between, nodes, 0, idx, cap);
            &&& h.entry == g.entry
            &&& h.rows.len() == g.rows.len()
            &&& forall|a: int|
                0 <= a < g.rows.len() ==> (#[trigger] h.rows[a]).len() == g.rows[a].len()
            &&& forall|a: u32|
                a < g.rows.len() ==> #[trigger] h.nbrs(a as int, 0) == (if nodes.contains(a) {
                    g.nbrs(a as int, 0).push(idx)
                } else {
                    g.nbrs(a as int, 0)
                })
        }),
    decreases nodes.len(),
{
    if nodes.len() > 0 {
        let rest = nodes.drop_last();
        let n = nodes.last();
        assert(nodes[nodes.len() - 1] == n);
        assert forall|i: int| 0 <= i < rest.len() implies (#[trigger] rest[i]) < g.rows.len()
            && rest[i] != idx && g.rows[rest[i] as int].len() > 0 && g.nbrs(
            rest[i] as int,
            0,
        ).len() < cap by {
            assert(rest[i] == nodes[i]);
        }
        lemma_links_back(g, between, rest, idx, cap);
        let mid = linked_all(g, between, rest, 0, idx, cap);
        let h = linked(mid, between, n, 0, idx, cap);
        assert(!rest.contains(n)) by {
            if rest.contains(n) {
                let i = choose|i: int| 0 <= i < rest.len() && rest[i] == n;
                assert(nodes[i] == nodes[nodes.len() - 1]);
            }
        }
        let row = mid.nbrs(n as int, 0);
        assert(row == g.nbrs(n as int, 0));
        assert(h == mid.with_row(n as int, 0, row.push(idx)));
        assert(mid.rows[n as int].len() == g.rows[n as int].len());
        assert forall|a: u32| a < g.rows.len() implies #[trigger] h.nbrs(a as int, 0) == (
        if nodes.contains(a) {
            g.nbrs(a as int, 0).push(idx)
        } else {
            g.nbrs(a as int, 0)
        }) by {
            if a == n {
                assert(nodes.contains(a));
                assert(h.rows[a as int][0] == row.push(idx));
            } else {
                assert(h.rows[a as int] == mid.rows[a as int]);
                assert(h.nbrs(a as int, 0) == mid.nbrs(a as int, 0));
                if nodes.contains(a) {
                    let i = choose|i: int| 0 <= i < nodes.len() && nodes[i] == a;
                    assert(rest[i] == a);
                }
                if rest.contains(a) {
                    let i = choose|i: int| 0 <= i < rest.len() && rest[i] == a;
                    assert(nodes[i] == a);
                }
            }
        }
        assert forall|a: int| 0 <= a < g.rows.len() implies (#[trigger] h.rows[a]).len()
            == g.rows[a].len() by {
            assert(mid.rows[a].len() == g.rows[a].len());
        }
    }
}

/// A node that is connected with all others is linked with them, and they with it.
pub proof fn lemma_joined_mesh(
    g: GraphView,
    between: spec_fn(u32, u32) -> u32,
    cands: Seq<Near>,
    idx: u32,
    cap: nat,
)
    requires
        meshed(g, idx as nat),
        g.entry != EMPTY,
        idx < g.rows.len(),
        idx <= cap,
        forall|a: int| 0 <= a <= idx ==> (#[trigger] g.rows[a]).len() > 0,
        cands.len() <= idx,
        ids_of(cands).no_duplicates(),
        forall|i: int| 0 <= i < cands.len() ==> (#[trigger] ids_of(cands)[i]) < idx,
        forall|b: u32| b < idx ==> #[trigger] ids_of(cands).contains(b),
    ensures
        meshed(joined(g, between, cands, 0, idx, cap), idx as nat + 1),
{
    let sel = ids_of(cands);
    assert(chosen(between, cands, cap) == sel);
    let h = g.with_row(idx as int, 0, sel);
    let out = joined(g, between, cands, 0, idx, cap);
    assert forall|a: u32| a < g.rows.len() && a != idx implies #[trigger] h.nbrs(a as int, 0)
        == g.nbrs(a as int, 0) by {
        assert(h.rows[a as int] == g.rows[a as int]);
    }
    assert(h.nbrs(idx as int, 0) == sel) by {
        assert(h.rows[idx as int][0] == sel);
    }
    assert forall|i: int| 0 <= i < sel.len() implies (#[trigger] sel[i]) < h.rows.len() && sel[i]
        != idx && h.rows[sel[i] as int].len() > 0 && h.nbrs(sel[i] as int, 0).len() < cap by {
        let a = sel[i];
        assert(a < idx);
        assert(h.nbrs(a as int, 0) == g.nbrs(a as int, 0));
        assert(g.rows[a as int].len() > 0);
    }
    lemma_links_back(h, between, sel, idx, cap);
    assert forall|a: int, b: u32|
        0 <= a < idx + 1 && b < idx + 1 && a != b implies #[trigger] out.nbrs(a, 0).contains(b) by {
        let x = a as u32;
        assert(out.nbrs(x as int, 0) == out.nbrs(a, 0));
        if a == idx {
            assert(sel.contains(b));
            if sel.contains(x) {
                let i = choose|i: int| 0 <= i < sel.len() && sel[i] == x;
                assert(ids_of(cands)[i] < idx);
            }
        } else {
            let row = g.nbrs(a, 0);
            assert(h.nbrs(x as int, 0) == row);
            assert(sel.contains(x));
            assert(out.nbrs(a, 0) == row.push(idx));
            if b == idx {
                assert(row.push(idx)[row.len() as int] == idx);
            } else {
                assert(row.contains(b));
                let i = choose|i: int| 0 <= i < row.len() && row[i] == b;
                assert(row.push(idx)[i] == b);
            }
        }
    }
    assert forall|a: int| 0 <= a < idx + 1 implies (#[trigger] out.nbrs(a, 0)).len() < idx + 1 by {
        let x = a as u32;
        assert(out.nbrs(x as int, 0) == out.nbrs(a, 0));
        if a == idx {
            if sel.contains(x) {
                let i = choose|i: int| 0 <= i < sel.len() && sel[i] == x;
                assert(ids_of(cands)[i] < idx);
            }
        } else {
            assert(h.nbrs(x as int, 0) == g.nbrs(a, 0));
        }
    }
}

/// Where all rows are linked with each other, every row can be reached from every other one.
proof fn lemma_mesh_reached(g: GraphView, n: nat, a: u32, b: u32)
    requires
        meshed(g, n),
        a < n,
        b < n,
    ensures
        reachable(g, 0, seq![a], b),
{
    let p = if a == b {
        seq![a]
    } else {
        seq![a, b]
    };
    assert(is_path(g, 0, p)) by {
        if a != b {
            assert(g.nbrs(a as int, 0).contains(b));
        }
    }
    assert(seq![a].contains(p[0])) by {
        assert(seq![a][0] == a);
    }
    assert(p.last() == b);
}

/// A search of a graph where all rows are linked with each other is exact: a row that passes the
/// filter and is not given is no better than any that is given, and rows are left out only once `k`
/// are given. Scores that are not numbers have no place in this.
pub proof fn law_small_graph_is_searched_exactly<N, S>(
    index: HnswIndex,
    data: SegmentCore,
    metric: Metric,
    kernel: Kernel<N, S>,
    query: Seq<u32>,
    k: nat,
    pass: spec_fn(u32) -> bool,
    out: Seq<(u32, u32)>,
    x: u32,
) where N: Fn(&[u32]) -> u32, S: Fn(Metric, &[u32], u32, &[u32], u32) -> u32
    requires
        index.fits(data),
        meshed(index.graph@, data.ids@.len()),
        k > 0,
        x < data.ids@.len(),
        pass(x),
        forall|y: u32|
            y < data.ids@.len() ==> !nan(#[trigger] score_for(data, metric, kernel, query, y)),
        out == answer(index, data, metric, kernel, query, k, pass),
    ensures
        (exists|i: int| 0 <= i < out.len() && (#[trigger] out[i]).0 == x) || (out.len() == k
            && forall|i: int|
            0 <= i < out.len() ==> !metric.better(
                score_for(data, metric, kernel, query, x),
                (#[trigger] out[i]).1,
            )),
{
    let g = index.graph@;
    let n = data.ids@.len();
    law_graph_search_is_complete(index, data, metric, kernel, query, k, pass, out);
    let (start, width, near) = choose|start: u32, width: nat, near: Seq<u32>| #[trigger]
        comes_to(index, data, metric, kernel, query, pass, start, width, near) && starts_at(
            index,
            data,
            metric,
            kernel,
            query,
            start,
        ) && width >= k && width >= index.params.ef_search && out.len() == (if near.len() < k {
            near.len()
        } else {
            k
        }) && (forall|i: int|
            0 <= i < out.len() ==> #[trigger] out[i] == (
                near[i],
                score_for(data, metric, kernel, query, near[i]),
            ));
    lemma_mesh_reached(g, n, start, x);
    let s = score_for(data, metric, kernel, query, x);
    if near.contains(x) {
        let j = choose|j: int| 0 <= j < near.len() && near[j] == x;
        if j < out.len() {
            assert(out[j].0 == x);
        } else {
            assert forall|i: int| 0 <= i < out.len() implies !metric.better(
                s,
                (#[trigger] out[i]).1,
            ) by {
                assert(!metric.better(
                    score_for(data, metric, kernel, query, near[j]),
                    score_for(data, metric, kernel, query, near[i]),
                ));
            }
        }
    } else {
        assert(near.len() >= width);
        let first = near[0];
        assert(g.nbrs(first as int, 0).contains(x)) by {
            assert(first < n && first != x);
        }
        let last = near.len() - 1;
        let t = score_for(data, metric, kernel, query, near[last]);
        assert(!metric.better(s, t));
        assert forall|i: int| 0 <= i < out.len() implies !metric.better(
            s,
            (#[trigger] out[i]).1,
        ) by {
            let u = score_for(data, metric, kernel, query, near[i]);
            assert(near[i] < n && near[last] < n);
            if i < last {
                assert(!metric.better(t, u));
            }
            law_better_and_thresholds(metric, s, t);
            law_better_and_thresholds(metric, t, u);
            law_better_and_thresholds(metric, s, u);
        }
    }
}

} // verus!
