//! Rows ordered by how near they are.

use vstd::prelude::*;

use crate::float::{below, law_orders_agree, lt, rank, ranked_before};

verus! {

/// A row and its key: the smaller the key, the nearer the row.
#[derive(Debug, Clone, Copy, PartialEq, Eq, Structural)]
pub struct Near {
    /// The row.
    pub id: u32,
    /// The key.
    pub key: u32,
}

/// Whether `a` comes before `b`: by their keys in the total order, then by row.
pub open spec fn before(a: Near, b: Near) -> bool {
    rank(a.key) < rank(b.key) || (rank(a.key) == rank(b.key) && a.id < b.id)
}

/// Every item comes before those behind it.
pub open spec fn ordered(s: Seq<Near>) -> bool {
    forall|i: int, j: int| 0 <= i < j < s.len() ==> before(#[trigger] s[i], #[trigger] s[j])
}

/// Whether a key has no place among the nearest `ef`: they are complete, and it is
/// not below the last of theirs.
pub open spec fn hopeless(s: Seq<Near>, ef: nat, key: u32) -> bool {
    s.len() == ef && s.len() > 0 && !below(key, s.last().key)
}

/// How many items of an ordered sequence come before an item.
pub open spec fn slot(s: Seq<Near>, item: Near) -> int
    decreases s.len(),
{
    if s.len() == 0 {
        0
    } else if before(s.last(), item) {
        s.len() as int
    } else {
        slot(s.drop_last(), item)
    }
}

/// An ordered sequence with one more item in its place.
pub open spec fn put_in(s: Seq<Near>, item: Near) -> Seq<Near> {
    s.insert(slot(s, item), item)
}

/// The nearest `ef` once an item was offered to them: it is taken in while they are incomplete,
/// and afterwards only where its key is below the last one, which then leaves.
pub open spec fn offered(s: Seq<Near>, item: Near, ef: nat) -> Seq<Near> {
    if s.len() < ef {
        put_in(s, item)
    } else if hopeless(s, ef, item.key) {
        s
    } else {
        put_in(s.drop_last(), item)
    }
}

/// An item has its place behind those that come before it.
proof fn lemma_slot(s: Seq<Near>, item: Near, p: int)
    requires
        0 <= p <= s.len(),
        forall|i: int| 0 <= i < p ==> before(#[trigger] s[i], item),
        forall|i: int| p <= i < s.len() ==> !before(#[trigger] s[i], item),
    ensures
        slot(s, item) == p,
    decreases s.len(),
{
    if p < s.len() {
        assert(!before(s[s.len() - 1], item));
        lemma_slot(s.drop_last(), item, p);
    } else if p > 0 {
        assert(before(s[p - 1], item));
    }
}

/// The place of an item lies within a sequence.
pub proof fn lemma_slot_within(s: Seq<Near>, item: Near)
    ensures
        0 <= slot(s, item) <= s.len(),
    decreases s.len(),
{
    if s.len() > 0 {
        lemma_slot_within(s.drop_last(), item);
    }
}

fn comes_before(a: Near, b: Near) -> (r: bool)
    ensures
        r == before(a, b),
{
    proof {
        law_orders_agree(a.key, b.key);
    }
    ranked_before(a.key, b.key) || (a.key == b.key && a.id < b.id)
}

/// In an ordered sequence, the items up to the place of an item come before it, and no others.
proof fn lemma_slot_splits(s: Seq<Near>, item: Near)
    requires
        ordered(s),
    ensures
        0 <= slot(s, item) <= s.len(),
        forall|i: int| 0 <= i < slot(s, item) ==> before(#[trigger] s[i], item),
        forall|i: int| slot(s, item) <= i < s.len() ==> !before(#[trigger] s[i], item),
    decreases s.len(),
{
    if s.len() > 0 {
        if before(s.last(), item) {
            assert forall|i: int| 0 <= i < s.len() implies before(#[trigger] s[i], item) by {
                if i < s.len() - 1 {
                    assert(before(s[i], s[s.len() - 1]));
                }
            }
        } else {
            let t = s.drop_last();
            assert(ordered(t)) by {
                assert forall|i: int, j: int| 0 <= i < j < t.len() implies before(
                    #[trigger] t[i],
                    #[trigger] t[j],
                ) by {
                    assert(before(s[i], s[j]));
                }
            }
            lemma_slot_splits(t, item);
            assert forall|i: int| 0 <= i < slot(s, item) implies before(#[trigger] s[i], item) by {
                assert(t[i] == s[i]);
            }
            assert forall|i: int| slot(s, item) <= i < s.len() implies !before(
                #[trigger] s[i],
                item,
            ) by {
                if i < t.len() {
                    assert(t[i] == s[i]);
                }
            }
        }
    }
}

/// Putting an item in its place leaves a sequence ordered.
pub proof fn lemma_put_in(s: Seq<Near>, item: Near)
    requires
        ordered(s),
        !s.contains(item),
    ensures
        ordered(put_in(s, item)),
        put_in(s, item).len() == s.len() + 1,
        forall|e: Near| #[trigger] put_in(s, item).contains(e) <==> s.contains(e) || e == item,
{
    lemma_slot_splits(s, item);
    let p = slot(s, item);
    let v = put_in(s, item);
    lemma_insert_contains(s, p, item);
    assert forall|i: int, j: int| 0 <= i < j < v.len() implies before(
        #[trigger] v[i],
        #[trigger] v[j],
    ) by {
        if j == p {
            assert(v[i] == s[i]);
        } else if i == p {
            assert(v[j] == s[j - 1]);
            assert(s.contains(s[j - 1]));
            law_orders_agree(s[j - 1].key, item.key);
        } else {
            let a = if i < p {
                i
            } else {
                i - 1
            };
            let b = if j < p {
                j
            } else {
                j - 1
            };
            assert(v[i] == s[a] && v[j] == s[b]);
        }
    }
}

/// What offering an item to the nearest `ef` does: they stay ordered and no more than `ef`, what
/// was hopeless still is, and an item that is not among them in the end is hopeless.
pub proof fn lemma_offered(s: Seq<Near>, item: Near, ef: nat)
    requires
        ordered(s),
        s.len() <= ef,
        ef > 0,
        !s.contains(item),
    ensures
        ordered(offered(s, item, ef)),
        offered(s, item, ef).len() <= ef,
        forall|k: u32| #[trigger] hopeless(s, ef, k) ==> hopeless(offered(s, item, ef), ef, k),
        forall|e: Near| #[trigger]
            offered(s, item, ef).contains(e) ==> s.contains(e) || e == item,
        forall|e: Near|
            s.contains(e) || e == item ==> #[trigger] offered(s, item, ef).contains(e) || hopeless(
                offered(s, item, ef),
                ef,
                e.key,
            ),
{
    let r = offered(s, item, ef);
    if s.len() < ef {
        lemma_put_in(s, item);
    } else if !hopeless(s, ef, item.key) {
        let t = s.drop_last();
        assert(s =~= t.push(s.last()));
        assert forall|e: Near| #[trigger] t.contains(e) implies s.contains(e) by {
            let i = choose|i: int| 0 <= i < t.len() && t[i] == e;
            assert(s[i] == e);
        }
        assert(ordered(t)) by {
            assert forall|i: int, j: int| 0 <= i < j < t.len() implies before(
                #[trigger] t[i],
                #[trigger] t[j],
            ) by {
                assert(before(s[i], s[j]));
            }
        }
        lemma_put_in(t, item);
        lemma_slot_within(t, item);
        let p = slot(t, item);
        let w = s.last().key;
        let w2 = r.last().key;
        law_orders_agree(item.key, w);
        assert(rank(w2) <= rank(w)) by {
            if p == t.len() {
                assert(r.last() == item);
            } else {
                assert(r.last() == t.last());
                assert(before(s[s.len() - 2], s[s.len() - 1]));
                assert(r.last() == s[s.len() - 2]);
            }
        }
        assert forall|k: u32| #[trigger] hopeless(s, ef, k) implies hopeless(r, ef, k) by {
            law_orders_agree(w2, w);
        }
        assert forall|e: Near| s.contains(e) || e == item implies #[trigger] r.contains(e)
            || hopeless(r, ef, e.key) by {
            if s.contains(e) && !t.contains(e) {
                let i = choose|i: int| 0 <= i < s.len() && s[i] == e;
                if i < s.len() - 1 {
                    assert(t[i] == e);
                }
                assert(e == s.last());
                law_orders_agree(w, w2);
            }
        }
    }
}

/// Puts an item in its place.
pub fn place_in(v: &mut Vec<Near>, item: Near)
    requires
        ordered(old(v)@),
    ensures
        final(v)@ == put_in(old(v)@, item),
{
    let ghost s = v@;
    let mut lo: usize = 0;
    let mut hi: usize = v.len();
    while lo < hi
        invariant
            lo <= hi <= v@.len(),
            v@ == s,
            ordered(s),
            forall|i: int| 0 <= i < lo ==> before(#[trigger] s[i], item),
            forall|i: int| hi <= i < s.len() ==> !before(#[trigger] s[i], item),
        decreases hi - lo,
    {
        let mid: usize = lo + (hi - lo) / 2;
        if comes_before(v[mid], item) {
            lo = mid + 1;
        } else {
            hi = mid;
        }
    }
    proof {
        lemma_slot(s, item, lo as int);
    }
    v.insert(lo, item);
}

/// Offers an item to the nearest `ef`.
pub fn offer(results: &mut Vec<Near>, item: Near, ef: usize)
    requires
        ordered(old(results)@),
        old(results)@.len() <= ef,
        ef > 0,
    ensures
        final(results)@ == offered(old(results)@, item, ef as nat),
{
    if results.len() < ef {
        place_in(results, item);
    } else if lt(item.key, results[results.len() - 1].key) {
        let ghost s = results@;
        let last = results.pop();
        assert(results@ =~= s.drop_last());
        place_in(results, item);
    }
}

/// What a sequence holds once an item was put into it.
pub proof fn lemma_insert_contains(s: Seq<Near>, p: int, item: Near)
    requires
        0 <= p <= s.len(),
    ensures
        forall|e: Near| #[trigger] s.insert(p, item).contains(e) <==> s.contains(e) || e == item,
{
    let t = s.insert(p, item);
    assert forall|e: Near| #[trigger] t.contains(e) <==> s.contains(e) || e == item by {
        if t.contains(e) {
            let i = choose|i: int| 0 <= i < t.len() && t[i] == e;
            if i < p {
                assert(s[i] == e);
            } else if i > p {
                assert(s[i - 1] == e);
            }
        }
        if s.contains(e) {
            let i = choose|i: int| 0 <= i < s.len() && s[i] == e;
            if i < p {
                assert(t[i] == e);
            } else {
                assert(t[i + 1] == e);
            }
        }
        if e == item {
            assert(t[p] == e);
        }
    }
}

/// Puts items in order of their keys. Items with the same key stay in the order in
/// which they came.
pub open spec fn by_key(s: Seq<Near>) -> Seq<Near>
    decreases s.len(),
{
    if s.len() == 0 {
        s
    } else {
        let rest = by_key(s.drop_last());
        rest.insert(upto(rest, s.last().key), s.last())
    }
}

/// How many items at the front of a sequence have keys that do not come after the
/// given one.
pub open spec fn upto(s: Seq<Near>, key: u32) -> int
    decreases s.len(),
{
    if s.len() == 0 {
        0
    } else if rank(key) < rank(s.last().key) {
        upto(s.drop_last(), key)
    } else {
        s.len() as int
    }
}

/// No more items come before a key than there are.
pub proof fn lemma_upto(s: Seq<Near>, key: u32)
    ensures
        0 <= upto(s, key) <= s.len(),
    decreases s.len(),
{
    if s.len() > 0 && rank(key) < rank(s.last().key) {
        lemma_upto(s.drop_last(), key);
    }
}

/// Sorting keeps the items.
pub proof fn lemma_by_key_items(s: Seq<Near>)
    ensures
        by_key(s).len() == s.len(),
        forall|e: Near| #[trigger] by_key(s).contains(e) <==> s.contains(e),
    decreases s.len(),
{
    if s.len() > 0 {
        let t = s.drop_last();
        lemma_by_key_items(t);
        lemma_upto(by_key(t), s.last().key);
        lemma_insert_contains(by_key(t), upto(by_key(t), s.last().key), s.last());
        assert forall|e: Near| #[trigger] by_key(s).contains(e) <==> s.contains(e) by {
            if s.contains(e) && e != s.last() {
                let i = choose|i: int| 0 <= i < s.len() && s[i] == e;
                assert(t[i] == e);
            }
            if t.contains(e) {
                let i = choose|i: int| 0 <= i < t.len() && t[i] == e;
                assert(s[i] == e);
            }
            if e == s.last() {
                assert(s[s.len() - 1] == e);
            }
        }
    }
}

/// Puts items in order of their keys.
pub fn sort_by_key(s: &Vec<Near>) -> (r: Vec<Near>)
    ensures
        r@ == by_key(s@),
{
    let mut r: Vec<Near> = Vec::new();
    let mut i: usize = 0;
    while i < s.len()
        invariant
            i <= s.len(),
            r@ == by_key(s@.take(i as int)),
            r.len() == i,
        decreases s.len() - i,
    {
        let item = s[i];
        let mut p: usize = r.len();
        assert(r@.take(p as int) =~= r@);
        while p > 0 && ranked_before(item.key, r[p - 1].key)
            invariant
                p <= r.len(),
                upto(r@.take(p as int), item.key) == upto(r@, item.key),
            decreases p,
        {
            assert(r@.take(p as int).drop_last() =~= r@.take(p - 1));
            p = p - 1;
        }
        proof {
            assert(upto(r@.take(p as int), item.key) == p) by {
                if p > 0 {
                    assert(r@.take(p as int).last() == r@[p - 1]);
                }
            }
            assert(s@.take(i + 1).drop_last() =~= s@.take(i as int));
        }
        r.insert(p, item);
        i = i + 1;
    }
    assert(s@.take(s@.len() as int) =~= s@);
    r
}

/// Sorting keeps the items, and puts them in order of their keys: the total order of the keys never
/// goes down.
pub proof fn law_sorted_by_key(s: Seq<Near>)
    ensures
        by_key(s).len() == s.len(),
        forall|e: Near| #[trigger] by_key(s).contains(e) <==> s.contains(e),
        forall|i: int, j: int|
            0 <= i < j < by_key(s).len() ==> rank((#[trigger] by_key(s)[i]).key) <= rank(
                (#[trigger] by_key(s)[j]).key,
            ),
    decreases s.len(),
{
    if s.len() > 0 {
        let t = s.drop_last();
        let e = s.last();
        let rest = by_key(t);
        let p = upto(rest, e.key);
        let r = by_key(s);
        law_sorted_by_key(t);
        lemma_upto(rest, e.key);
        lemma_upto_splits(rest, e.key);
        lemma_by_key_items(s);
        assert(r == rest.insert(p, e));
        assert forall|i: int, j: int| 0 <= i < j < r.len() implies rank((#[trigger] r[i]).key)
            <= rank((#[trigger] r[j]).key) by {
            let a = if i < p {
                i
            } else {
                i - 1
            };
            let b = if j < p {
                j
            } else {
                j - 1
            };
            if i != p {
                assert(r[i] == rest[a]);
            }
            if j != p {
                assert(r[j] == rest[b]);
            }
        }
    }
}

/// The items up to a key have keys that do not come after it, and the others do.
proof fn lemma_upto_splits(s: Seq<Near>, key: u32)
    requires
        forall|i: int, j: int|
            0 <= i < j < s.len() ==> rank((#[trigger] s[i]).key) <= rank((#[trigger] s[j]).key),
    ensures
        forall|i: int| 0 <= i < upto(s, key) ==> rank((#[trigger] s[i]).key) <= rank(key),
        forall|i: int| upto(s, key) <= i < s.len() ==> rank(key) < rank((#[trigger] s[i]).key),
    decreases s.len(),
{
    if s.len() > 0 {
        let t = s.drop_last();
        if rank(key) < rank(s.last().key) {
            assert forall|i: int, j: int| 0 <= i < j < t.len() implies rank((#[trigger] t[i]).key)
                <= rank((#[trigger] t[j]).key) by {
                assert(t[i] == s[i] && t[j] == s[j]);
            }
            lemma_upto_splits(t, key);
            lemma_upto(t, key);
            assert forall|i: int| 0 <= i < upto(s, key) implies rank((#[trigger] s[i]).key) <= rank(
                key,
            ) by {
                assert(t[i] == s[i]);
            }
            assert forall|i: int| upto(s, key) <= i < s.len() implies rank(key) < rank(
                (#[trigger] s[i]).key,
            ) by {
                if i < t.len() {
                    assert(t[i] == s[i]);
                }
            }
        } else {
            assert forall|i: int| 0 <= i < s.len() implies rank((#[trigger] s[i]).key) <= rank(
                key,
            ) by {
                if i < s.len() - 1 {
                    assert(rank(s[i].key) <= rank(s[s.len() - 1].key));
                }
            }
        }
    }
}

} // verus!
