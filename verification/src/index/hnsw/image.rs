//! The file of a graph index.
//!
//! It holds, as little-endian integers: a magic number, a format version, the number
//! of nodes, the parameters `m` and `m0`, the node where searches start, the highest
//! layer, the parameters `ef_construct` and `ef_search`; the highest layer of each
//! node, a byte each; the table of the ground layer; then the number of nodes with
//! further layers, and for each of them its number, its highest layer, and its lists
//! of links, each behind its length.

use vstd::prelude::*;

use crate::bytes::{
    law_le16_round_trip, law_le32_all_round_trip, law_le32_round_trip, le16, le32, le32_all,
    push_bytes, push_u16, push_u32, push_u32s, u16_at, u32_at, u32s_at, Reader,
};
use crate::error::{Error, Invalid};
use crate::index::hnsw::graph::{degree, lemma_degree, tidy, HnswGraph, UpperLinks, EMPTY};
use crate::index::hnsw::params::HnswParams;
use crate::index::hnsw::{answer, HnswIndex};
use crate::kernel::{Kernel, Metric};
use crate::segment::data::SegmentCore;

verus! {

/// The number that an index file starts with.
pub const MAGIC: u32 = 0x5644_4248;

/// The version of the format.
pub const FORMAT_VERSION: u32 = 1;

/// What an index file says.
#[verifier::ext_equal]
pub struct IndexImage {
    /// The number of nodes.
    pub count: u32,
    /// The most links on a layer above the ground layer.
    pub m: u32,
    /// The most links on the ground layer.
    pub m0: u32,
    /// Where searches start.
    pub entry: u32,
    /// The highest layer.
    pub max_level: i32,
    /// How many candidates are kept while building.
    pub ef_construct: u32,
    /// How many candidates are kept while searching.
    pub ef_search: u32,
    /// The highest layer of each node.
    pub levels: Seq<u8>,
    /// The table of the ground layer.
    pub layer0: Seq<u32>,
    /// The links of the other layers.
    pub upper: Seq<Seq<Seq<u32>>>,
}

/// What some lists hold.
pub open spec fn lists(layers: Seq<Vec<u32>>) -> Seq<Seq<u32>> {
    Seq::new(layers.len(), |l: int| layers[l]@)
}

/// What the lists of some nodes hold.
pub open spec fn node_lists(upper: Seq<UpperLinks>) -> Seq<Seq<Seq<u32>>> {
    Seq::new(upper.len(), |n: int| lists(upper[n].layers@))
}

/// What the file of an index says.
pub open spec fn image_of(index: HnswIndex) -> IndexImage {
    let g = index.graph;
    IndexImage {
        count: g.count,
        m: g.m as u32,
        m0: g.m0 as u32,
        entry: g.entry,
        max_level: g.max_level,
        ef_construct: index.params.ef_construct as u32,
        ef_search: index.params.ef_search as u32,
        levels: g.levels@,
        layer0: g.layer0@,
        upper: node_lists(g.upper@),
    }
}

/// The bytes of some lists of links, each behind its length.
pub open spec fn lists_bytes(layers: Seq<Seq<u32>>) -> Seq<u8>
    decreases layers.len(),
{
    if layers.len() == 0 {
        Seq::empty()
    } else {
        le16(layers[0].len() as u16) + le32_all(layers[0]) + lists_bytes(layers.drop_first())
    }
}

/// How many nodes from `n` on have layers above the ground layer.
pub open spec fn tall_nodes(levels: Seq<u8>, n: int) -> nat
    decreases levels.len() - n,
{
    if n >= levels.len() {
        0
    } else {
        (if levels[n] > 0 {
            1nat
        } else {
            0nat
        }) + tall_nodes(levels, n + 1)
    }
}

/// The bytes of the lists of the nodes from `n` on.
pub open spec fn upper_bytes(levels: Seq<u8>, upper: Seq<Seq<Seq<u32>>>, n: int) -> Seq<u8>
    decreases levels.len() - n,
{
    if n >= levels.len() {
        Seq::empty()
    } else {
        (if levels[n] > 0 {
            le32(n as u32) + seq![levels[n]] + lists_bytes(upper[n])
        } else {
            Seq::empty()
        }) + upper_bytes(levels, upper, n + 1)
    }
}

/// The bytes of the fixed part of an index file.
pub open spec fn header_bytes(img: IndexImage) -> Seq<u8> {
    le32(MAGIC) + le32(FORMAT_VERSION) + le32(img.count) + le32(img.m) + le32(img.m0) + le32(
        img.entry,
    ) + le32(img.max_level as u32) + le32(img.ef_construct) + le32(img.ef_search)
}

/// The bytes of an index file.
pub open spec fn image_bytes(img: IndexImage) -> Seq<u8> {
    header_bytes(img) + img.levels + le32_all(img.layer0) + le32(
        tall_nodes(img.levels, 0) as u32,
    ) + upper_bytes(img.levels, img.upper, 0)
}

/// The lists of one node read from position `p` on: `k` of them, behind those that
/// were read before. With them comes the position behind what was read.
pub open spec fn read_lists(bytes: Seq<u8>, p: int, k: nat, acc: Seq<Seq<u32>>) -> Result<
    (Seq<Seq<u32>>, int),
    Invalid,
>
    decreases k,
{
    if k == 0 {
        Ok((acc, p))
    } else if p + 2 > bytes.len() {
        Err(Invalid::IndexTruncated)
    } else {
        let len = u16_at(bytes, p);
        if p + 2 + 4 * len > bytes.len() {
            Err(Invalid::IndexTruncated)
        } else {
            read_lists(
                bytes,
                p + 2 + 4 * len,
                (k - 1) as nat,
                acc.push(u32s_at(bytes, p + 2, len as nat)),
            )
        }
    }
}

/// The lists of `k` nodes read from position `p` on, added to those that were read
/// before. With them comes the position behind what was read.
pub open spec fn read_nodes(
    bytes: Seq<u8>,
    p: int,
    k: nat,
    max_level: i32,
    acc: Seq<Seq<Seq<u32>>>,
) -> Result<(Seq<Seq<Seq<u32>>>, int), Invalid>
    decreases k,
{
    if k == 0 {
        Ok((acc, p))
    } else if p + 5 > bytes.len() {
        Err(Invalid::IndexTruncated)
    } else {
        let n = u32_at(bytes, p);
        let layers = bytes[p + 4];
        if n >= acc.len() || layers > max_level {
            Err(Invalid::IndexUpper)
        } else {
            match read_lists(bytes, p + 5, layers as nat, acc[n as int]) {
                Err(e) => Err(e),
                Ok((ls, q)) => read_nodes(
                    bytes,
                    q,
                    (k - 1) as nat,
                    max_level,
                    acc.update(n as int, ls),
                ),
            }
        }
    }
}

/// What an index file says, for a segment with `rows` rows; or what is wrong with it.
#[verifier::opaque]
pub open spec fn read_image(bytes: Seq<u8>, rows: usize) -> Result<IndexImage, Invalid> {
    let count = u32_at(bytes, 8);
    let m0 = u32_at(bytes, 16);
    let p = 36 + count;
    let q = p + 4 * (count * m0);
    if bytes.len() < 4 {
        Err(Invalid::IndexTruncated)
    } else if u32_at(bytes, 0) != MAGIC {
        Err(Invalid::IndexMagic(u32_at(bytes, 0)))
    } else if bytes.len() < 8 {
        Err(Invalid::IndexTruncated)
    } else if u32_at(bytes, 4) != FORMAT_VERSION {
        Err(Invalid::IndexVersion(u32_at(bytes, 4)))
    } else if bytes.len() < 36 {
        Err(Invalid::IndexTruncated)
    } else if count != rows {
        Err(Invalid::IndexCount { index: count, segment: rows })
    } else if bytes.len() < q + 4 {
        Err(Invalid::IndexTruncated)
    } else {
        let max_level = u32_at(bytes, 24) as i32;
        match read_nodes(
            bytes,
            q + 4,
            u32_at(bytes, q) as nat,
            max_level,
            Seq::new(count as nat, |n: int| Seq::<Seq<u32>>::empty()),
        ) {
            Err(e) => Err(e),
            Ok((upper, end)) => if end != bytes.len() {
                Err(Invalid::IndexTrailing((bytes.len() - end) as usize))
            } else {
                Ok(
                    IndexImage {
                        count,
                        m: u32_at(bytes, 12),
                        m0,
                        entry: u32_at(bytes, 20),
                        max_level,
                        ef_construct: u32_at(bytes, 28),
                        ef_search: u32_at(bytes, 32),
                        levels: bytes.subrange(36, p),
                        layer0: u32s_at(bytes, p, (count * m0) as nat),
                        upper,
                    },
                )
            },
        }
    }
}

impl HnswIndex {
    /// The file of the index.
    pub fn serialize(&self) -> (r: Vec<u8>)
        requires
            self.graph.levels@.len() == self.graph.count,
            self.graph.upper@.len() == self.graph.count,
        ensures
            r@ == image_bytes(image_of(*self)),
    {
        let g = &self.graph;
        let ghost img = image_of(*self);
        let mut out: Vec<u8> = Vec::new();
        push_u32(&mut out, MAGIC);
        push_u32(&mut out, FORMAT_VERSION);
        push_u32(&mut out, g.count);
        push_u32(
            &mut out,
            #[verifier::truncate]
            (g.m as u32),
        );
        push_u32(
            &mut out,
            #[verifier::truncate]
            (g.m0 as u32),
        );
        push_u32(&mut out, g.entry);
        push_u32(
            &mut out,
            #[verifier::truncate]
            (g.max_level as u32),
        );
        push_u32(
            &mut out,
            #[verifier::truncate]
            (self.params.ef_construct as u32),
        );
        push_u32(
            &mut out,
            #[verifier::truncate]
            (self.params.ef_search as u32),
        );
        assert(out@ =~= header_bytes(img));
        push_bytes(&mut out, g.levels.as_slice());
        push_u32s(&mut out, g.layer0.as_slice());
        let tall: u32 = count_tall(&g.levels);
        push_u32(&mut out, tall);
        let ghost front = out@;
        assert(front + upper_bytes(img.levels, img.upper, 0) == image_bytes(img));
        let mut n: usize = 0;
        while n < g.levels.len()
            invariant
                n <= g.levels@.len(),
                g == &self.graph,
                g.levels@.len() == g.count,
                g.upper@.len() == g.count,
                img == image_of(*self),
                out@ + upper_bytes(img.levels, img.upper, n as int) == image_bytes(img),
            decreases g.levels.len() - n,
        {
            let ghost rest = upper_bytes(img.levels, img.upper, n + 1);
            if g.levels[n] > 0 {
                let ghost before = out@;
                push_u32(&mut out, n as u32);
                out.push(g.levels[n]);
                assert(out@ =~= before + (le32(n as u32) + seq![img.levels[n as int]]));
                push_lists(&mut out, &g.upper[n].layers);
                assert(img.upper[n as int] == lists(g.upper@[n as int].layers@));
                assert(out@ + rest =~= before + upper_bytes(img.levels, img.upper, n as int));
            } else {
                assert(rest =~= upper_bytes(img.levels, img.upper, n as int));
            }
            n = n + 1;
        }
        assert(out@ =~= image_bytes(img));
        out
    }

    /// The index that a file holds, for a segment with `rows` rows.
    pub fn load(bytes: &[u8], rows: usize) -> (r: Result<Self, Error>)
        ensures
            match read_image(bytes@, rows) {
                Ok(img) => r is Ok && image_of(r->Ok_0) == img && r->Ok_0.graph.m == img.m
                    && r->Ok_0.graph.m0 == img.m0 && r->Ok_0.params == (HnswParams {
                    m: img.m as usize,
                    m0: img.m0 as usize,
                    ef_construct: img.ef_construct as usize,
                    ef_search: img.ef_search as usize,
                }),
                Err(e) => r == Err::<Self, Error>(Error::Invalid(e)),
            },
    {
        reveal(read_image);
        let mut r = Reader::new(bytes);
        let magic: u32 = r.u32()?;
        if magic != MAGIC {
            return Err(Error::Invalid(Invalid::IndexMagic(magic)));
        }
        let version: u32 = r.u32()?;
        if version != FORMAT_VERSION {
            return Err(Error::Invalid(Invalid::IndexVersion(version)));
        }
        let count: u32 = r.u32()?;
        let m: u32 = r.u32()?;
        let m0: u32 = r.u32()?;
        let entry: u32 = r.u32()?;
        let max_level: i32 = r.i32()?;
        let ef_construct: u32 = r.u32()?;
        let ef_search: u32 = r.u32()?;
        if count as usize != rows {
            return Err(Error::Invalid(Invalid::IndexCount { index: count, segment: rows }));
        }
        proof {
            assert(count * m0 >= 0) by (nonlinear_arith);
            assert(count * m0 <= 0xFFFF_FFFF * 0xFFFF_FFFF) by (nonlinear_arith)
                requires
                    count <= 0xFFFF_FFFF,
                    m0 <= 0xFFFF_FFFF,
            ;
        }
        let levels: Vec<u8> = vstd::slice::slice_to_vec(r.take(count as usize)?);
        let total: u64 = count as u64 * m0 as u64;
        let layer0 = read_table(&mut r, total)?;
        let ghost q = 36 + count + 4 * (count * m0);
        let tall: u32 = r.u32()?;
        let mut upper = blank_lists(count);
        let mut k: u32 = 0;
        let ghost acc0 = Seq::new(count as nat, |n: int| Seq::<Seq<u32>>::empty());
        assert(node_lists(upper@) =~~= acc0);
        while k < tall
            invariant
                k <= tall,
                r.valid(),
                r.bytes_spec() == bytes@,
                upper@.len() == count,
                read_nodes(
                    bytes@,
                    r.at(),
                    (tall - k) as nat,
                    max_level,
                    node_lists(upper@),
                ) == read_nodes(bytes@, q + 4, tall as nat, max_level, acc0),
                forall|e: Invalid|
                    read_nodes(bytes@, q + 4, tall as nat, max_level, acc0) == Err::<
                        (Seq<Seq<Seq<u32>>>, int),
                        Invalid,
                    >(e) ==> #[trigger] read_image(bytes@, rows) == Err::<IndexImage, Invalid>(e),
            decreases tall - k,
        {
            let ghost acc = node_lists(upper@);
            let ghost p = r.at();
            let node: u32 = r.u32()?;
            let layers: u8 = r.u8()?;
            if node >= count || layers as i32 > max_level {
                return Err(Error::Invalid(Invalid::IndexUpper));
            }
            let n: usize = node as usize;
            read_layers(&mut r, layers, &mut upper[n].layers)?;
            proof {
                let ls = lists(upper@[n as int].layers@);
                assert(node_lists(upper@) =~= acc.update(n as int, ls));
            }
            k = k + 1;
        }
        if r.remaining() != 0 {
            return Err(Error::Invalid(Invalid::IndexTrailing(r.remaining())));
        }
        let index = HnswIndex {
            graph: HnswGraph {
                count,
                m: m as usize,
                m0: m0 as usize,
                entry,
                max_level,
                levels,
                layer0,
                upper,
            },
            params: HnswParams {
                m: m as usize,
                m0: m0 as usize,
                ef_construct: ef_construct as usize,
                ef_search: ef_search as usize,
            },
        };
        Ok(index)
    }
}

/// How many nodes have layers above the ground layer.
fn count_tall(levels: &Vec<u8>) -> (r: u32)
    requires
        levels@.len() <= u32::MAX,
    ensures
        r == tall_nodes(levels@, 0),
        tall_nodes(levels@, 0) <= levels@.len(),
{
    let mut n: usize = levels.len();
    let mut r: u32 = 0;
    while n > 0
        invariant
            n <= levels@.len(),
            levels@.len() <= u32::MAX,
            r == tall_nodes(levels@, n as int),
            r <= levels@.len() - n,
        decreases n,
    {
        n = n - 1;
        if levels[n] > 0 {
            r = r + 1;
        }
    }
    r
}

/// Appends some lists of links, each behind its length.
fn push_lists(out: &mut Vec<u8>, layers: &Vec<Vec<u32>>)
    ensures
        final(out)@ == old(out)@ + lists_bytes(lists(layers@)),
{
    let ghost all = lists(layers@);
    let ghost before = out@;
    let mut l: usize = 0;
    assert(all.skip(0) =~= all);
    while l < layers.len()
        invariant
            l <= layers@.len(),
            all == lists(layers@),
            out@ + lists_bytes(all.skip(l as int)) == before + lists_bytes(all),
        decreases layers.len() - l,
    {
        let ghost mid = out@;
        push_u16(
            out,
            #[verifier::truncate]
            (layers[l].len() as u16),
        );
        push_u32s(out, layers[l].as_slice());
        proof {
            let rest = all.skip(l as int);
            assert(rest[0] == layers@[l as int]@);
            assert(rest.drop_first() =~= all.skip(l + 1));
            assert(out@ + lists_bytes(all.skip(l + 1)) =~= mid + lists_bytes(rest));
        }
        l = l + 1;
    }
    assert(all.skip(l as int) =~= Seq::<Seq<u32>>::empty());
    assert(out@ =~= before + lists_bytes(all));
}

/// Reads the table of the ground layer.
fn read_table(r: &mut Reader<'_>, total: u64) -> (res: Result<Vec<u32>, Error>)
    requires
        old(r).valid(),
    ensures
        final(r).valid(),
        final(r).bytes_spec() == old(r).bytes_spec(),
        match res {
            Ok(v) => {
                &&& old(r).at() + 4 * total <= old(r).bytes_spec().len()
                &&& final(r).at() == old(r).at() + 4 * total
                &&& v@ == u32s_at(old(r).bytes_spec(), old(r).at(), total as nat)
            },
            Err(e) => {
                &&& old(r).at() + 4 * total > old(r).bytes_spec().len()
                &&& e == Error::Invalid(Invalid::IndexTruncated)
            },
        },
{
    let ghost bytes = r.bytes_spec();
    let ghost p = r.at();
    let mut v: Vec<u32> = Vec::new();
    let mut i: u64 = 0;
    while i < total
        invariant
            i <= total,
            r.valid(),
            r.bytes_spec() == bytes,
            bytes == old(r).bytes_spec(),
            p == old(r).at(),
            r.at() == p + 4 * i,
            p + 4 * i <= bytes.len(),
            v@ == u32s_at(bytes, p, i as nat),
        decreases total - i,
    {
        let x: u32 = r.u32()?;
        v.push(x);
        assert(v@ =~= u32s_at(bytes, p, (i + 1) as nat));
        i = i + 1;
    }
    Ok(v)
}

/// Reads lists of links, each behind its length.
fn read_layers(r: &mut Reader<'_>, k: u8, layers: &mut Vec<Vec<u32>>) -> (res: Result<(), Error>)
    requires
        old(r).valid(),
    ensures
        final(r).valid(),
        final(r).bytes_spec() == old(r).bytes_spec(),
        match read_lists(old(r).bytes_spec(), old(r).at(), k as nat, lists(old(layers)@)) {
            Ok((ls, q)) => res is Ok && lists(final(layers)@) == ls && final(r).at() == q,
            Err(e) => res == Err::<(), Error>(Error::Invalid(e)),
        },
{
    let ghost bytes = r.bytes_spec();
    let ghost goal = read_lists(bytes, r.at(), k as nat, lists(layers@));
    let mut i: u8 = 0;
    while i < k
        invariant
            i <= k,
            r.valid(),
            r.bytes_spec() == bytes,
            bytes == old(r).bytes_spec(),
            goal == read_lists(old(r).bytes_spec(), old(r).at(), k as nat, lists(old(layers)@)),
            read_lists(bytes, r.at(), (k - i) as nat, lists(layers@)) == goal,
        decreases k - i,
    {
        let ghost p = r.at();
        let ghost acc = lists(layers@);
        let len: u16 = r.u16()?;
        let list = read_table(r, len as u64)?;
        layers.push(list);
        assert(lists(layers@) =~= acc.push(u32s_at(bytes, p + 2, len as nat)));
        i = i + 1;
    }
    Ok(())
}

/// No lists for any node.
fn blank_lists(count: u32) -> (r: Vec<UpperLinks>)
    ensures
        r@.len() == count,
        forall|n: int| 0 <= n < count ==> (#[trigger] r@[n]).layers@.len() == 0,
{
    let mut r: Vec<UpperLinks> = Vec::new();
    let mut i: u32 = 0;
    while i < count
        invariant
            i <= count,
            r@.len() == i,
            forall|n: int| 0 <= n < i ==> (#[trigger] r@[n]).layers@.len() == 0,
        decreases count - i,
    {
        r.push(UpperLinks { layers: Vec::new() });
        i = i + 1;
    }
    r
}

/// The tables have a place for everything, and every list is short enough for its
/// length to be written.
pub open spec fn writable(img: IndexImage) -> bool {
    &&& img.levels.len() == img.count
    &&& img.layer0.len() == img.count * img.m0
    &&& img.upper.len() == img.count
    &&& forall|n: int| 0 <= n < img.count ==> #[trigger] lists_writable(img, n)
}

/// A node has a list for each of its layers, and each list is short enough.
pub open spec fn lists_writable(img: IndexImage, n: int) -> bool {
    &&& img.upper[n].len() == img.levels[n]
    &&& img.levels[n] == 0 || img.levels[n] <= img.max_level
    &&& forall|l: int|
        0 <= l < img.upper[n].len() ==> (#[trigger] img.upper[n][l]).len() <= 0xFFFF
}

proof fn lemma_lists_back(layers: Seq<Seq<u32>>, acc: Seq<Seq<u32>>, pre: Seq<u8>, post: Seq<u8>)
    requires
        forall|l: int| 0 <= l < layers.len() ==> (#[trigger] layers[l]).len() <= 0xFFFF,
    ensures
        read_lists(
            pre + lists_bytes(layers) + post,
            pre.len() as int,
            layers.len(),
            acc,
        ) == Ok::<(Seq<Seq<u32>>, int), Invalid>(
            (acc + layers, (pre.len() + lists_bytes(layers).len()) as int),
        ),
    decreases layers.len(),
{
    if layers.len() == 0 {
        assert(acc + layers =~= acc);
    } else {
        let first = layers[0];
        let rest = layers.drop_first();
        let bytes = pre + lists_bytes(layers) + post;
        let head = le16(first.len() as u16);
        let body = le32_all(first);
        let tail = lists_bytes(rest);
        law_le16_round_trip(first.len() as u16, pre, body + tail + post);
        assert(bytes =~= pre + head + (body + tail + post));
        law_le32_all_round_trip(first, pre + head, tail + post);
        assert(bytes =~= (pre + head) + body + (tail + post));
        assert forall|l: int| 0 <= l < rest.len() implies (#[trigger] rest[l]).len() <= 0xFFFF by {
            assert(rest[l] == layers[l + 1]);
        }
        lemma_lists_back(rest, acc.push(first), pre + head + body, post);
        assert(bytes =~= (pre + head + body) + tail + post);
        assert(acc.push(first) + rest =~= acc + layers);
    }
}

proof fn lemma_nodes_back(img: IndexImage, n: int, acc: Seq<Seq<Seq<u32>>>, pre: Seq<u8>)
    requires
        writable(img),
        0 <= n <= img.count,
        acc.len() == img.count,
        forall|k: int| 0 <= k < n ==> #[trigger] acc[k] == img.upper[k],
        forall|k: int| n <= k < acc.len() ==> #[trigger] acc[k] == Seq::<Seq<u32>>::empty(),
    ensures
        read_nodes(
            pre + upper_bytes(img.levels, img.upper, n),
            pre.len() as int,
            tall_nodes(img.levels, n),
            img.max_level,
            acc,
        ) == Ok::<(Seq<Seq<Seq<u32>>>, int), Invalid>(
            (img.upper, (pre.len() + upper_bytes(img.levels, img.upper, n).len()) as int),
        ),
    decreases img.count - n,
{
    let bytes = pre + upper_bytes(img.levels, img.upper, n);
    if n == img.count {
        assert(acc =~= img.upper);
    } else {
        let rest = upper_bytes(img.levels, img.upper, n + 1);
        assert(lists_writable(img, n));
        if img.levels[n] == 0 {
            assert(img.upper[n] =~= Seq::<Seq<u32>>::empty());
            assert(bytes =~= pre + rest);
            lemma_nodes_back(img, n + 1, acc, pre);
        } else {
            let head = le32(n as u32);
            let level = seq![img.levels[n]];
            let body = lists_bytes(img.upper[n]);
            law_le32_round_trip(n as u32, pre, level + body + rest);
            assert(bytes =~= pre + head + (level + body + rest));
            assert(bytes[pre.len() as int + 4] == img.levels[n]) by {
                assert(bytes =~= (pre + head) + level + (body + rest));
            }
            lemma_lists_back(img.upper[n], acc[n], pre + head + level, rest);
            assert(bytes =~= (pre + head + level) + body + rest);
            assert(acc[n] + img.upper[n] =~= img.upper[n]);
            let acc2 = acc.update(n, img.upper[n]);
            lemma_nodes_back(img, n + 1, acc2, pre + head + level + body);
            assert(bytes =~= (pre + head + level + body) + rest);
        }
    }
}

proof fn lemma_tall_bound(levels: Seq<u8>, n: int)
    requires
        0 <= n <= levels.len(),
    ensures
        tall_nodes(levels, n) <= levels.len() - n,
    decreases levels.len() - n,
{
    if n < levels.len() {
        lemma_tall_bound(levels, n + 1);
    }
}

proof fn lemma_header_back(img: IndexImage, post: Seq<u8>)
    ensures
        header_bytes(img).len() == 36,
        u32_at(header_bytes(img) + post, 0) == MAGIC,
        u32_at(header_bytes(img) + post, 4) == FORMAT_VERSION,
        u32_at(header_bytes(img) + post, 8) == img.count,
        u32_at(header_bytes(img) + post, 12) == img.m,
        u32_at(header_bytes(img) + post, 16) == img.m0,
        u32_at(header_bytes(img) + post, 20) == img.entry,
        u32_at(header_bytes(img) + post, 24) == img.max_level as u32,
        u32_at(header_bytes(img) + post, 28) == img.ef_construct,
        u32_at(header_bytes(img) + post, 32) == img.ef_search,
{
    let a = le32(MAGIC);
    let b = le32(FORMAT_VERSION);
    let c = le32(img.count);
    let d = le32(img.m);
    let e = le32(img.m0);
    let f = le32(img.entry);
    let g = le32(img.max_level as u32);
    let h = le32(img.ef_construct);
    let i = le32(img.ef_search);
    let all = header_bytes(img) + post;
    let none = Seq::<u8>::empty();
    law_le32_round_trip(MAGIC, none, b + c + d + e + f + g + h + i + post);
    assert(all =~= none + a + (b + c + d + e + f + g + h + i + post));
    law_le32_round_trip(FORMAT_VERSION, a, c + d + e + f + g + h + i + post);
    assert(all =~= a + b + (c + d + e + f + g + h + i + post));
    law_le32_round_trip(img.count, a + b, d + e + f + g + h + i + post);
    assert(all =~= (a + b) + c + (d + e + f + g + h + i + post));
    law_le32_round_trip(img.m, a + b + c, e + f + g + h + i + post);
    assert(all =~= (a + b + c) + d + (e + f + g + h + i + post));
    law_le32_round_trip(img.m0, a + b + c + d, f + g + h + i + post);
    assert(all =~= (a + b + c + d) + e + (f + g + h + i + post));
    law_le32_round_trip(img.entry, a + b + c + d + e, g + h + i + post);
    assert(all =~= (a + b + c + d + e) + f + (g + h + i + post));
    law_le32_round_trip(img.max_level as u32, a + b + c + d + e + f, h + i + post);
    assert(all =~= (a + b + c + d + e + f) + g + (h + i + post));
    law_le32_round_trip(img.ef_construct, a + b + c + d + e + f + g, i + post);
    assert(all =~= (a + b + c + d + e + f + g) + h + (i + post));
    law_le32_round_trip(img.ef_search, a + b + c + d + e + f + g + h, post);
    assert(all =~= (a + b + c + d + e + f + g + h) + i + post);
}

/// What is written is read back.
#[verifier::spinoff_prover]
#[verifier::rlimit(40)]
pub proof fn law_image_round_trip(img: IndexImage)
    requires
        writable(img),
    ensures
        read_image(image_bytes(img), img.count as usize) == Ok::<IndexImage, Invalid>(img),
{
    let bytes = image_bytes(img);
    let count = img.count as int;
    let tall = tall_nodes(img.levels, 0);
    lemma_tall_bound(img.levels, 0);
    let h = header_bytes(img);
    let t = le32_all(img.layer0);
    let k = le32(tall as u32);
    let u = upper_bytes(img.levels, img.upper, 0);
    let p = 36 + count;
    let q = p + 4 * img.layer0.len();
    lemma_header_back(img, img.levels + t + k + u);
    assert(bytes =~= h + (img.levels + t + k + u));
    assert(t.len() == 4 * img.layer0.len() && u32s_at(bytes, p, img.layer0.len())
        == img.layer0) by {
        law_le32_all_round_trip(img.layer0, h + img.levels, k + u);
        assert(bytes =~= (h + img.levels) + t + (k + u));
    }
    assert(k.len() == 4 && u32_at(bytes, q) == tall) by {
        law_le32_round_trip(tall as u32, h + img.levels + t, u);
        assert(bytes =~= (h + img.levels + t) + k + u);
    }
    let acc = Seq::new(img.count as nat, |n: int| Seq::<Seq<u32>>::empty());
    assert(read_nodes(bytes, q + 4, tall, img.max_level, acc) == Ok::<
        (Seq<Seq<Seq<u32>>>, int),
        Invalid,
    >((img.upper, bytes.len() as int))) by {
        lemma_nodes_back(img, 0, acc, h + img.levels + t + k);
        assert(bytes =~= (h + img.levels + t + k) + u);
    }
    assert(bytes.subrange(36, p) =~= img.levels);
    let level = img.max_level;
    assert((level as u32) as i32 == level) by (bit_vector);
    assert(img.count * img.m0 == img.layer0.len());
    lemma_image_read(img, bytes, q, tall, acc);
}

/// What an index file says whose parts are known.
proof fn lemma_image_read(
    img: IndexImage,
    bytes: Seq<u8>,
    q: int,
    tall: nat,
    acc: Seq<Seq<Seq<u32>>>,
)
    requires
        q == 36 + img.count + 4 * (img.count * img.m0),
        q + 4 <= bytes.len(),
        u32_at(bytes, 0) == MAGIC,
        u32_at(bytes, 4) == FORMAT_VERSION,
        u32_at(bytes, 8) == img.count,
        u32_at(bytes, 12) == img.m,
        u32_at(bytes, 16) == img.m0,
        u32_at(bytes, 20) == img.entry,
        u32_at(bytes, 24) as i32 == img.max_level,
        u32_at(bytes, 28) == img.ef_construct,
        u32_at(bytes, 32) == img.ef_search,
        u32_at(bytes, q) == tall,
        bytes.subrange(36, 36 + img.count) == img.levels,
        u32s_at(bytes, 36 + img.count, (img.count * img.m0) as nat) == img.layer0,
        acc == Seq::new(img.count as nat, |n: int| Seq::<Seq<u32>>::empty()),
        read_nodes(bytes, q + 4, tall, img.max_level, acc) == Ok::<
            (Seq<Seq<Seq<u32>>>, int),
            Invalid,
        >((img.upper, bytes.len() as int)),
    ensures
        read_image(bytes, img.count as usize) == Ok::<IndexImage, Invalid>(img),
{
    reveal(read_image);
    assert(img.count * img.m0 >= 0) by (nonlinear_arith);
    assert(Seq::new(img.count as nat, |n: int| Seq::<Seq<u32>>::empty()) =~= acc);
    assert(read_image(bytes, img.count as usize)->Ok_0 =~= img);
}

proof fn lemma_built_lists(g: HnswGraph, n: int)
    requires
        g.built(),
        0 <= n < g.count,
    ensures
        lists(g.upper@[n].layers@).len() == g.levels@[n],
        g.levels@[n] == 0 || g.levels@[n] <= g.max_level,
        forall|l: int|
            0 <= l < g.upper@[n].layers@.len() ==> (#[trigger] g.upper@[n].layers@[l])@.len()
                <= g.m,
{
    let v = g@;
    assert(v.rows[n].len() == g.levels@[n] + 1);
    assert(v.crowned());
    if g.entry != EMPTY {
        assert(v.rows[n].len() <= v.top + 1);
    } else {
        assert(v.rows[n].len() == 1);
    }
    assert forall|l: int| 0 <= l < g.upper@[n].layers@.len() implies (
    #[trigger] g.upper@[n].layers@[l])@.len() <= g.m by {
        assert(v.rows[n][l + 1] == g.links_of(n, l + 1));
        assert(v.layered(g.m as nat, g.m0 as nat));
        assert(v.rows[n][l + 1].len() <= g.m);
    }
}

proof fn lemma_built_writable(index: HnswIndex)
    requires
        index.graph.built(),
        index.graph.m <= 0xFFFF,
        index.graph.m0 <= u32::MAX,
    ensures
        writable(image_of(index)),
{
    let g = index.graph;
    let img = image_of(index);
    assert forall|n: int| 0 <= n < img.count implies #[trigger] lists_writable(img, n) by {
        lemma_built_lists(g, n);
        assert forall|l: int| 0 <= l < img.upper[n].len() implies (
        #[trigger] img.upper[n][l]).len() <= 0xFFFF by {
            assert(g.upper@[n].layers@[l]@ == img.upper[n][l]);
        }
    }
    assert(img.m0 as int == g.m0 as int);
    assert(img.count * img.m0 == g.count * g.m0);
    assert(img.layer0.len() == img.count * img.m0);
    assert(img.levels.len() == img.count);
    assert(img.upper.len() == img.count);
    assert(writable(img));
}

/// The file of an index that was built, read back for its segment, says what the
/// index is.
pub proof fn law_index_round_trip(index: HnswIndex)
    requires
        index.graph.built(),
        index.graph.m <= 0xFFFF,
        index.graph.m0 <= u32::MAX,
    ensures
        read_image(image_bytes(image_of(index)), index.graph.count as usize) == Ok::<
            IndexImage,
            Invalid,
        >(image_of(index)),
{
    lemma_built_writable(index);
    law_image_round_trip(image_of(index));
}

/// Lists that were read are read the same where more bytes follow.
proof fn lemma_lists_prefix(a: Seq<u8>, more: Seq<u8>, p: int, k: nat, acc: Seq<Seq<u32>>)
    requires
        0 <= p <= a.len(),
        read_lists(a, p, k, acc) is Ok,
    ensures
        read_lists(a + more, p, k, acc) == read_lists(a, p, k, acc),
        p <= read_lists(a, p, k, acc)->Ok_0.1 <= a.len(),
    decreases k,
{
    let b = a + more;
    if k > 0 {
        let len = u16_at(a, p);
        assert(u16_at(b, p) == len);
        assert(u32s_at(b, p + 2, len as nat) =~= u32s_at(a, p + 2, len as nat)) by {
            assert forall|i: int| 0 <= i < len implies #[trigger] u32s_at(b, p + 2, len as nat)[i]
                == u32s_at(a, p + 2, len as nat)[i] by {}
        }
        lemma_lists_prefix(
            a,
            more,
            p + 2 + 4 * len,
            (k - 1) as nat,
            acc.push(u32s_at(a, p + 2, len as nat)),
        );
    }
}

/// Nodes that were read are read the same where more bytes follow.
proof fn lemma_nodes_prefix(
    a: Seq<u8>,
    more: Seq<u8>,
    p: int,
    k: nat,
    max_level: i32,
    acc: Seq<Seq<Seq<u32>>>,
)
    requires
        0 <= p <= a.len(),
        read_nodes(a, p, k, max_level, acc) is Ok,
    ensures
        read_nodes(a + more, p, k, max_level, acc) == read_nodes(a, p, k, max_level, acc),
    decreases k,
{
    let b = a + more;
    if k > 0 {
        let n = u32_at(a, p);
        assert(u32_at(b, p) == n);
        assert(b[p + 4] == a[p + 4]);
        let layers = a[p + 4];
        lemma_lists_prefix(a, more, p + 5, layers as nat, acc[n as int]);
        let got = read_lists(a, p + 5, layers as nat, acc[n as int])->Ok_0;
        lemma_nodes_prefix(
            a,
            more,
            got.1,
            (k - 1) as nat,
            max_level,
            acc.update(n as int, got.0),
        );
    }
}

/// An index file that more bytes follow is refused, and the error says how many.
pub proof fn law_lengthened_index_is_refused(bytes: Seq<u8>, more: Seq<u8>, rows: usize)
    requires
        read_image(bytes, rows) is Ok,
        more.len() > 0,
    ensures
        read_image(bytes + more, rows) == Err::<IndexImage, Invalid>(
            Invalid::IndexTrailing(more.len() as usize),
        ),
{
    reveal(read_image);
    let b = bytes + more;
    let count = u32_at(bytes, 8);
    let m0 = u32_at(bytes, 16);
    let p = 36 + count;
    assert(count * m0 >= 0) by (nonlinear_arith)
        requires
            count >= 0,
            m0 >= 0,
    ;
    let q = p + 4 * (count * m0);
    assert(u32_at(b, 0) == u32_at(bytes, 0) && u32_at(b, 4) == u32_at(bytes, 4));
    assert(u32_at(b, 8) == count && u32_at(b, 16) == m0);
    assert(u32_at(b, 24) == u32_at(bytes, 24));
    assert(u32_at(b, q) == u32_at(bytes, q));
    lemma_nodes_prefix(
        bytes,
        more,
        q + 4,
        u32_at(bytes, q) as nat,
        u32_at(bytes, 24) as i32,
        Seq::new(count as nat, |n: int| Seq::<Seq<u32>>::empty()),
    );
}

/// An index file that was cut short is refused.
pub proof fn law_shortened_index_is_refused(bytes: Seq<u8>, k: int, rows: usize)
    requires
        read_image(bytes, rows) is Ok,
        0 <= k < bytes.len(),
    ensures
        read_image(bytes.take(k), rows) is Err,
{
    if read_image(bytes.take(k), rows) is Ok {
        law_lengthened_index_is_refused(bytes.take(k), bytes.skip(k), rows);
        assert(bytes.take(k) + bytes.skip(k) =~= bytes);
    }
}

/// Two indexes whose files say the same have the same graph, and one can be searched if the other
/// can be.
pub proof fn law_same_file_same_graph(a: HnswIndex, b: HnswIndex)
    requires
        image_of(a) == image_of(b),
        a.graph.m0 <= u32::MAX,
        b.graph.m0 <= u32::MAX,
        a.graph.upper@.len() == a.graph.count,
        b.graph.upper@.len() == b.graph.count,
    ensures
        a.graph@ == b.graph@,
        a.graph.valid() ==> b.graph.valid(),
{
    let g = a.graph;
    let h = b.graph;
    assert(g.m0 == h.m0);
    assert forall|n: int, l: int| 0 <= n < g.count implies #[trigger] g.links_of(n, l)
        == h.links_of(n, l) by {
        assert(g.ground(n) == h.ground(n));
        let x = node_lists(g.upper@)[n];
        let y = node_lists(h.upper@)[n];
        assert(x == y);
        assert(x == lists(g.upper@[n].layers@) && y == lists(h.upper@[n].layers@));
        assert(x.len() == g.upper@[n].layers@.len() && y.len() == h.upper@[n].layers@.len());
        if 0 < l <= g.levels@[n] && l - 1 < g.upper@[n].layers@.len() {
            assert(x[l - 1] == g.upper@[n].layers@[l - 1]@);
            assert(y[l - 1] == h.upper@[n].layers@[l - 1]@);
        }
    }
    assert(g@.rows =~= h@.rows) by {
        assert forall|n: int| 0 <= n < g.count implies #[trigger] g@.rows[n] == h@.rows[n] by {
            assert forall|l: int| 0 <= l < g@.rows[n].len() implies #[trigger] g@.rows[n][l]
                == h@.rows[n][l] by {
                assert(g.links_of(n, l) == h.links_of(n, l));
            }
            assert(g@.rows[n] =~= h@.rows[n]);
        }
    }
    if g.valid() {
        assert forall|n: int| 0 <= n < h.count implies tidy(#[trigger] h.ground(n)) by {
            assert(g.ground(n) == h.ground(n));
            assert(tidy(g.ground(n)));
        }
    }
}

/// An index that was built, saved and loaded has the same graph, the same parameters and the same
/// file, and a search of it gives what a search of the first gives. What is known of the loaded
/// index is what loading promises.
pub proof fn law_loaded_index_answers_the_same<N, S>(
    a: HnswIndex,
    b: HnswIndex,
    data: SegmentCore,
    metric: Metric,
    kernel: Kernel<N, S>,
    query: Seq<u32>,
    k: nat,
    pass: spec_fn(u32) -> bool,
) where N: Fn(&[u32]) -> u32, S: Fn(Metric, &[u32], u32, &[u32], u32) -> u32
    requires
        a.graph.built(),
        a.graph.m == a.params.m,
        a.graph.m0 == a.params.m0,
        a.params.m <= 0xFFFF,
        a.params.m0 <= u32::MAX,
        a.params.ef_construct <= u32::MAX,
        a.params.ef_search <= u32::MAX,
        read_image(image_bytes(image_of(a)), a.graph.count as usize) matches Ok(img) ==> image_of(b)
            == img && b.graph.m == img.m && b.graph.m0 == img.m0 && b.params == (HnswParams {
            m: img.m as usize,
            m0: img.m0 as usize,
            ef_construct: img.ef_construct as usize,
            ef_search: img.ef_search as usize,
        }),
    ensures
        read_image(image_bytes(image_of(a)), a.graph.count as usize) is Ok,
        image_bytes(image_of(b)) == image_bytes(image_of(a)),
        b.params == a.params,
        b.graph@ == a.graph@,
        a.fits(data) ==> b.fits(data),
        answer(b, data, metric, kernel, query, k, pass) == answer(
            a,
            data,
            metric,
            kernel,
            query,
            k,
            pass,
        ),
{
    law_index_round_trip(a);
    assert(image_of(a).upper.len() == image_of(b).upper.len());
    law_same_file_same_graph(a, b);
}

/// Indexes with the same graph have the same file.
pub proof fn lemma_same_image(a: HnswIndex, b: HnswIndex)
    requires
        a.graph.built(),
        b.graph.built(),
        a.graph@ == b.graph@,
        a.graph.m == b.graph.m,
        a.graph.m0 == b.graph.m0,
        a.params == b.params,
    ensures
        image_of(a) == image_of(b),
{
    let g = a.graph;
    let h = b.graph;
    assert(g@.rows.len() == g.count && h@.rows.len() == h.count);
    assert(g.count == h.count);
    assert forall|n: int| 0 <= n < g.count implies g.levels@[n] == h.levels@[n] && (
    #[trigger] g.ground(n)) == h.ground(n) && lists(g.upper@[n].layers@) == lists(h.upper@[n].layers@) by {
        assert(g@.rows[n].len() == g.levels@[n] + 1);
        assert(h@.rows[n].len() == h.levels@[n] + 1);
        assert(g@.rows[n][0] == g.links_of(n, 0) && h@.rows[n][0] == h.links_of(n, 0));
        let x = g.ground(n);
        let y = h.ground(n);
        lemma_degree(x);
        lemma_degree(y);
        assert(tidy(x) && tidy(y));
        assert(g.links_of(n, 0).len() == degree(x) && h.links_of(n, 0).len() == degree(y));
        assert(n * g.m0 + g.m0 <= g.count * g.m0) by (nonlinear_arith)
            requires
                0 <= n < g.count,
                g.m0 >= 0,
        ;
        assert(n * g.m0 >= 0) by (nonlinear_arith)
            requires
                0 <= n,
                g.m0 >= 0,
        ;
        assert(x.len() == g.m0 && y.len() == h.m0);
        assert forall|i: int| 0 <= i < x.len() implies x[i] == y[i] by {
            if i < degree(x) {
                assert(g.links_of(n, 0)[i] == x[i] && h.links_of(n, 0)[i] == y[i]);
            } else {
                assert(x[i] == EMPTY && y[i] == EMPTY);
            }
        }
        assert(x =~= y);
        assert(g.upper@[n].layers@.len() == g.levels@[n]);
        assert(h.upper@[n].layers@.len() == h.levels@[n]);
        assert forall|l: int| 0 <= l < g.levels@[n] implies g.upper@[n].layers@[l]@
            == h.upper@[n].layers@[l]@ by {
            assert(g@.rows[n][l + 1] == g.links_of(n, l + 1));
            assert(h@.rows[n][l + 1] == h.links_of(n, l + 1));
        }
        assert(lists(g.upper@[n].layers@) =~= lists(h.upper@[n].layers@));
    }
    assert forall|n: int| 0 <= n < g.count implies #[trigger] g.levels@[n] == h.levels@[n] by {
        assert(g.ground(n) == h.ground(n));
    }
    assert(g.levels@ =~= h.levels@);
    let x = node_lists(g.upper@);
    let y = node_lists(h.upper@);
    assert forall|n: int| 0 <= n < x.len() implies #[trigger] x[n] == y[n] by {
        assert(g.ground(n) == h.ground(n));
    }
    assert(x =~= y);
    assert forall|i: int| 0 <= i < g.layer0@.len() implies g.layer0@[i] == h.layer0@[i] by {
        let m0 = g.m0 as int;
        let c = g.count as int;
        assert(m0 > 0) by (nonlinear_arith)
            requires
                0 <= i < c * m0,
                m0 >= 0,
        ;
        let n = i / m0;
        let r = i % m0;
        assert(i == n * m0 + r && 0 <= r < m0 && 0 <= n < c) by (nonlinear_arith)
            requires
                0 <= i < c * m0,
                m0 > 0,
                n == i / m0,
                r == i % m0,
        ;
        assert(n * m0 + m0 <= c * m0) by (nonlinear_arith)
            requires
                0 <= n < c,
                m0 >= 0,
        ;
        assert(g.ground(n) == h.ground(n));
        assert(g.ground(n)[r] == g.layer0@[i] && h.ground(n)[r] == h.layer0@[i]);
    }
    assert(g.layer0@ =~= h.layer0@);
}

} // verus!
