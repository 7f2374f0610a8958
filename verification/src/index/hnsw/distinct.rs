//! That no node has two links to the same node, or one to itself.

use vstd::prelude::*;

use crate::index::hnsw::graph::GraphView;
use crate::index::hnsw::insert::{
    around, everything, joined, linked, linked_all, on_layer, without,
};
use crate::index::hnsw::traversal::{
    chosen, diverse, finds, ids_of, is_path, lemma_chosen, lemma_diverse,
    lemma_ordered_ids_distinct, search_ends,
};
use crate::index::queue::{by_key, lemma_by_key_items, lemma_upto, upto, Near};

verus! {

/// Whether the links of a node are different, and none leads to the node itself.
pub open spec fn proper_row(n: int, row: Seq<u32>) -> bool {
    row.no_duplicates() && forall|i: int| 0 <= i < row.len() ==> #[trigger] row[i] != n
}

/// Whether no node has two links to the same node on a layer, or one to itself.
pub open spec fn distinct(g: GraphView) -> bool {
    forall|n: int, l: int|
        0 <= n < g.rows.len() && 0 <= l < g.rows[n].len() ==> proper_row(n, #[trigger] g.rows[n][l])
}

/// Whether no link of a layer leads to a node.
pub open spec fn unlinked(g: GraphView, k: u32, l: int) -> bool {
    forall|n: int, i: int|
        0 <= n < g.rows.len() && 0 <= l < g.rows[n].len() && 0 <= i < g.rows[n][l].len()
            ==> #[trigger] g.rows[n][l][i] != k
}

/// Whether two graphs have the same nodes with the same layers, and the same links on all
/// layers but one.
pub open spec fn same_but(g: GraphView, h: GraphView, l: int) -> bool {
    &&& h.rows.len() == g.rows.len()
    &&& forall|n: int| 0 <= n < g.rows.len() ==> (#[trigger] h.rows[n]).len() == g.rows[n].len()
    &&& forall|n: int, b: int|
        0 <= n < g.rows.len() && 0 <= b < g.rows[n].len() && b != l ==> (#[trigger] h.rows[n][b])
            == g.rows[n][b]
}

/// Putting items in order keeps their nodes different.
proof fn lemma_sorted_distinct(s: Seq<Near>)
    requires
        ids_of(s).no_duplicates(),
    ensures
        ids_of(by_key(s)).no_duplicates(),
    decreases s.len(),
{
    if s.len() > 0 {
        let t = s.drop_last();
        let last = s.last();
        assert(ids_of(t).no_duplicates()) by {
            assert forall|i: int, j: int|
                0 <= i < ids_of(t).len() && 0 <= j < ids_of(t).len() && i != j implies ids_of(t)[i]
                != ids_of(t)[j] by {
                assert(ids_of(s)[i] != ids_of(s)[j]);
            }
        }
        lemma_sorted_distinct(t);
        lemma_by_key_items(t);
        let rest = by_key(t);
        let k = upto(rest, last.key);
        lemma_upto(rest, last.key);
        let all = rest.insert(k, last);
        assert forall|i: int| 0 <= i < rest.len() implies (#[trigger] rest[i]).id != last.id by {
            assert(rest.contains(rest[i]));
            let j = choose|j: int| 0 <= j < t.len() && t[j] == rest[i];
            assert(ids_of(s)[j] != ids_of(s)[s.len() - 1]);
        }
        assert forall|i: int, j: int|
            0 <= i < ids_of(all).len() && 0 <= j < ids_of(all).len() && i != j implies ids_of(all)[i]
            != ids_of(all)[j] by {
            let x = if i < k {
                i
            } else {
                i - 1
            };
            let y = if j < k {
                j
            } else {
                j - 1
            };
            if i == k {
                assert(all[j] == rest[y]);
            } else if j == k {
                assert(all[i] == rest[x]);
            } else {
                assert(all[i] == rest[x] && all[j] == rest[y]);
                assert(ids_of(rest)[x] != ids_of(rest)[y]);
            }
        }
    }
}

/// Nodes that are chosen among different ones are different.
proof fn lemma_chosen_distinct(between: spec_fn(u32, u32) -> u32, cands: Seq<Near>, m: nat)
    requires
        ids_of(cands).no_duplicates(),
    ensures
        chosen(between, cands, m).no_duplicates(),
{
    if cands.len() > m {
        lemma_diverse_distinct(between, cands, m);
    }
}

proof fn lemma_diverse_distinct(between: spec_fn(u32, u32) -> u32, cands: Seq<Near>, m: nat)
    requires
        ids_of(cands).no_duplicates(),
    ensures
        diverse(between, cands, m).no_duplicates(),
    decreases cands.len(),
{
    if cands.len() > 0 {
        let t = cands.drop_last();
        assert(ids_of(t).no_duplicates()) by {
            assert forall|i: int, j: int|
                0 <= i < ids_of(t).len() && 0 <= j < ids_of(t).len() && i != j implies ids_of(t)[i]
                != ids_of(t)[j] by {
                assert(ids_of(cands)[i] != ids_of(cands)[j]);
            }
        }
        lemma_diverse_distinct(between, t, m);
        lemma_diverse(between, t, m);
        let taken = diverse(between, t, m);
        assert forall|i: int| 0 <= i < taken.len() implies #[trigger] taken[i]
            != cands.last().id by {
            assert(ids_of(t).contains(taken[i]));
            let j = choose|j: int| 0 <= j < ids_of(t).len() && ids_of(t)[j] == taken[i];
            assert(ids_of(cands)[j] != ids_of(cands)[cands.len() - 1]);
        }
    }
}

/// The links of a node once it has one more, or has chosen anew.
proof fn lemma_row_linked(
    between: spec_fn(u32, u32) -> u32,
    row: Seq<u32>,
    n: u32,
    idx: u32,
    cap: nat,
)
    requires
        proper_row(n as int, row),
        n != idx,
        without(row, idx),
    ensures
        proper_row(n as int, row.push(idx)),
        proper_row(
            n as int,
            chosen(between, by_key(around(between, n, row.push(idx))), cap),
        ),
        chosen(between, by_key(around(between, n, row.push(idx))), cap).len() <= cap,
        forall|i: int|
            0 <= i < chosen(between, by_key(around(between, n, row.push(idx))), cap).len()
                ==> row.push(idx).contains(
                #[trigger] chosen(between, by_key(around(between, n, row.push(idx))), cap)[i],
            ),
{
    let more = row.push(idx);
    let pool = around(between, n, more);
    let sorted = by_key(pool);
    let c = chosen(between, sorted, cap);
    assert(ids_of(pool) =~= more);
    lemma_sorted_distinct(pool);
    lemma_by_key_items(pool);
    lemma_chosen_distinct(between, sorted, cap);
    lemma_chosen(between, sorted, cap);
    assert forall|i: int| 0 <= i < c.len() implies more.contains(#[trigger] c[i]) by {
        assert(ids_of(sorted).contains(c[i]));
        let j = choose|j: int| 0 <= j < ids_of(sorted).len() && ids_of(sorted)[j] == c[i];
        assert(sorted.contains(sorted[j]));
        let k = choose|k: int| 0 <= k < pool.len() && pool[k] == sorted[j];
        assert(more[k] == c[i]);
    }
    assert forall|i: int| 0 <= i < c.len() implies #[trigger] c[i] != n by {
        assert(more.contains(c[i]));
    }
}

/// Giving a row of a graph other links that are different leaves all different.
proof fn lemma_row_distinct(g: GraphView, n: int, l: int, links: Seq<u32>)
    requires
        distinct(g),
        0 <= n < g.rows.len(),
        0 <= l < g.rows[n].len(),
        proper_row(n, links),
    ensures
        distinct(g.with_row(n, l, links)),
        same_but(g, g.with_row(n, l, links), l),
{
    let h = g.with_row(n, l, links);
    assert forall|a: int, b: int| 0 <= a < h.rows.len() && 0 <= b < h.rows[a].len() implies proper_row(
        a,
        #[trigger] h.rows[a][b],
    ) by {
        if a != n || b != l {
            assert(h.rows[a][b] == g.rows[a][b]);
        }
    }
}

/// A node that gets a link to another one keeps its links different.
proof fn lemma_linked_distinct(
    g: GraphView,
    between: spec_fn(u32, u32) -> u32,
    n: u32,
    l: int,
    idx: u32,
    cap: nat,
)
    requires
        distinct(g),
        l >= 0,
        n < g.rows.len(),
        g.rows[n as int].len() > l,
        n != idx,
        without(g.rows[n as int][l], idx),
    ensures
        distinct(linked(g, between, n, l, idx, cap)),
        same_but(g, linked(g, between, n, l, idx, cap), l),
        forall|a: int|
            0 <= a < g.rows.len() && a != n && g.rows[a].len() > l ==> (#[trigger] linked(
                g,
                between,
                n,
                l,
                idx,
                cap,
            ).rows[a])[l] == g.rows[a][l],
{
    let row = g.rows[n as int][l];
    assert(g.nbrs(n as int, l) == row);
    lemma_row_linked(between, row, n, idx, cap);
    if row.len() < cap {
        lemma_row_distinct(g, n as int, l, row.push(idx));
    } else {
        lemma_row_distinct(
            g,
            n as int,
            l,
            chosen(between, by_key(around(between, n, row.push(idx))), cap),
        );
    }
}

/// Nodes that get a link to another one keep their links different.
proof fn lemma_linked_all_distinct(
    g: GraphView,
    between: spec_fn(u32, u32) -> u32,
    nodes: Seq<u32>,
    l: int,
    idx: u32,
    cap: nat,
)
    requires
        distinct(g),
        l >= 0,
        on_layer(g, nodes, l),
        nodes.no_duplicates(),
        without(nodes, idx),
        forall|i: int|
            0 <= i < nodes.len() ==> without(g.rows[(#[trigger] nodes[i]) as int][l], idx),
    ensures
        distinct(linked_all(g, between, nodes, l, idx, cap)),
        same_but(g, linked_all(g, between, nodes, l, idx, cap), l),
        forall|a: int|
            0 <= a < g.rows.len() && g.rows[a].len() > l && !nodes.contains(a as u32) && a
                <= u32::MAX ==> (#[trigger] linked_all(g, between, nodes, l, idx, cap).rows[a])[l]
                == g.rows[a][l],
    decreases nodes.len(),
{
    if nodes.len() > 0 {
        let rest = nodes.drop_last();
        let n = nodes[nodes.len() - 1];
        assert forall|i: int| 0 <= i < rest.len() implies (#[trigger] rest[i]) < g.rows.len()
            && g.rows[rest[i] as int].len() > l && rest[i] != idx && without(
            g.rows[rest[i] as int][l],
            idx,
        ) && rest[i] != n by {
            assert(rest[i] == nodes[i]);
        }
        lemma_linked_all_distinct(g, between, rest, l, idx, cap);
        let h = linked_all(g, between, rest, l, idx, cap);
        assert(n < g.rows.len() && n != idx);
        assert(!rest.contains(n));
        assert(h.rows[n as int][l] == g.rows[n as int][l]);
        assert(h.rows[n as int].len() == g.rows[n as int].len());
        lemma_linked_distinct(h, between, n, l, idx, cap);
        let after = linked_all(g, between, nodes, l, idx, cap);
        assert(after == linked(h, between, n, l, idx, cap));
        assert forall|a: int|
            0 <= a < g.rows.len() && g.rows[a].len() > l && !nodes.contains(a as u32) && a
                <= u32::MAX implies (#[trigger] after.rows[a])[l] == g.rows[a][l] by {
            assert(nodes[nodes.len() - 1] == n);
            if rest.contains(a as u32) {
                let i = choose|i: int| 0 <= i < rest.len() && rest[i] == a as u32;
                assert(nodes[i] == a as u32);
            }
            assert(h.rows[a][l] == g.rows[a][l]);
            assert(h.rows[a].len() == g.rows[a].len());
        }
        assert forall|x: int, b: int|
            0 <= x < g.rows.len() && 0 <= b < g.rows[x].len() && b != l implies (
        #[trigger] after.rows[x][b]) == g.rows[x][b] by {
            assert(h.rows[x].len() == g.rows[x].len());
            assert(h.rows[x][b] == g.rows[x][b]);
        }
        assert forall|x: int| 0 <= x < g.rows.len() implies (#[trigger] after.rows[x]).len()
            == g.rows[x].len() by {
            assert(h.rows[x].len() == g.rows[x].len());
        }
    }
}

/// Connecting a node on a layer where no link leads to it leaves all links different.
pub proof fn lemma_joined_distinct(
    g: GraphView,
    between: spec_fn(u32, u32) -> u32,
    cands: Seq<Near>,
    l: int,
    idx: u32,
    cap: nat,
)
    requires
        distinct(g),
        l >= 0,
        unlinked(g, idx, l),
        on_layer(g, ids_of(cands), l),
        on_layer(g, seq![idx], l),
        ids_of(cands).no_duplicates(),
        without(ids_of(cands), idx),
    ensures
        distinct(joined(g, between, cands, l, idx, cap)),
        same_but(g, joined(g, between, cands, l, idx, cap), l),
{
    let sel = chosen(between, cands, cap);
    assert(seq![idx][0] == idx);
    lemma_chosen(between, cands, cap);
    lemma_chosen_distinct(between, cands, cap);
    assert forall|i: int| 0 <= i < sel.len() implies (#[trigger] sel[i]) < g.rows.len()
        && g.rows[sel[i] as int].len() > l && sel[i] != idx by {
        assert(ids_of(cands).contains(sel[i]));
        let j = choose|j: int| 0 <= j < ids_of(cands).len() && ids_of(cands)[j] == sel[i];
        assert(ids_of(cands)[j] < g.rows.len() && ids_of(cands)[j] != idx);
    }
    lemma_row_distinct(g, idx as int, l, sel);
    let h = g.with_row(idx as int, l, sel);
    assert forall|i: int| 0 <= i < sel.len() implies without(
        h.rows[(#[trigger] sel[i]) as int][l],
        idx,
    ) && sel[i] < h.rows.len() && h.rows[sel[i] as int].len() > l by {
        let e = sel[i] as int;
        assert(h.rows[e] == g.rows[e]);
        assert forall|k: int| 0 <= k < h.rows[e][l].len() implies #[trigger] h.rows[e][l][k]
            != idx by {
            assert(g.rows[e][l][k] != idx);
        }
    }
    lemma_linked_all_distinct(h, between, sel, l, idx, cap);
    let after = linked_all(h, between, sel, l, idx, cap);
    assert forall|x: int, b: int|
        0 <= x < g.rows.len() && 0 <= b < g.rows[x].len() && b != l implies (
    #[trigger] after.rows[x][b]) == g.rows[x][b] by {
        assert(h.rows[x].len() == g.rows[x].len());
        assert(h.rows[x][b] == g.rows[x][b]);
    }
    assert forall|x: int| 0 <= x < g.rows.len() implies (#[trigger] after.rows[x]).len()
        == g.rows[x].len() by {
        assert(h.rows[x].len() == g.rows[x].len());
    }
}

/// A walk on a layer where no link leads to a node does not come to it.
pub proof fn lemma_walk_avoids(g: GraphView, l: int, p: Seq<u32>, i: int, k: u32)
    requires
        g.sound(),
        unlinked(g, k, l),
        is_path(g, l, p),
        p[0] != k,
        p[0] < g.rows.len(),
        0 <= i < p.len(),
    ensures
        p[i] != k,
        p[i] < g.rows.len(),
    decreases i,
{
    if i > 0 {
        lemma_walk_avoids(g, l, p, i - 1, k);
        let n = p[i - 1] as int;
        assert(g.nbrs(p[i - 1] as int, l).contains(p[i - 1 + 1]));
        let row = g.nbrs(n, l);
        let j = choose|j: int| 0 <= j < row.len() && row[j] == p[i];
        assert(g.rows[n][l][j] == p[i]);
    }
}

/// A search of a layer finds different nodes, and none that no link leads to.
pub proof fn lemma_found_distinct(
    g: GraphView,
    key: spec_fn(u32) -> u32,
    l: int,
    eps: Seq<u32>,
    ef: nat,
    out: Seq<Near>,
    k: u32,
)
    requires
        g.sound(),
        unlinked(g, k, l),
        without(eps, k),
        forall|i: int| 0 <= i < eps.len() ==> #[trigger] eps[i] < g.rows.len(),
        finds(g, key, everything(), l, eps, ef, out),
    ensures
        without(ids_of(out), k),
        ids_of(out).no_duplicates(),
{
    let seen = choose|seen: Set<u32>| #[trigger]
        search_ends(g, key, everything(), l, eps, ef, out, seen);
    lemma_ordered_ids_distinct(out, key);
    assert forall|i: int| 0 <= i < ids_of(out).len() implies #[trigger] ids_of(out)[i] != k by {
        assert(seen.contains(out[i].id));
        let p = choose|p: Seq<u32>| #[trigger]
            is_path(g, l, p) && eps.contains(p[0]) && p.last() == out[i].id;
        let j = choose|j: int| 0 <= j < eps.len() && eps[j] == p[0];
        assert(eps[j] != k && eps[j] < g.rows.len());
        lemma_walk_avoids(g, l, p, p.len() - 1, k);
    }
}

} // verus!
