//! Searching the rows of a segment, one by one and through a graph.

use vectordb::error::Invalid;
use vectordb::index::flat;
use vectordb::index::hnsw::rng::{sample_level, Rng};
use vectordb::index::hnsw::graph::HnswGraph;
use vectordb::index::hnsw::traversal::{greedy_descend, search_layer, Ctx};
use vectordb::index::hnsw::HnswIndex;
use vectordb::index::{AllRows, Passing};
use vectordb::kernel::{to_key, to_score, Kernel};
use vectordb::segment::data::SegmentCore;
use vectordb::{Error, ExternalId, HnswParams, Metric};

fn dot(a: &[u32], b: &[u32]) -> f32 {
    a.iter()
        .zip(b)
        .map(|(x, y)| f32::from_bits(*x) * f32::from_bits(*y))
        .sum()
}

fn l2(a: &[u32], b: &[u32]) -> f32 {
    a.iter()
        .zip(b)
        .map(|(x, y)| {
            let d = f32::from_bits(*x) - f32::from_bits(*y);
            d * d
        })
        .sum()
}

fn norm(v: &[u32]) -> u32 {
    dot(v, v).sqrt().to_bits()
}

fn score(m: Metric, a: &[u32], an: u32, b: &[u32], bn: u32) -> u32 {
    let s = match m {
        Metric::L2 => l2(a, b),
        Metric::Dot => dot(a, b),
        Metric::Cosine => {
            let (x, y) = (f32::from_bits(an), f32::from_bits(bn));
            if x == 0.0 || y == 0.0 {
                0.0
            } else {
                dot(a, b) / (x * y)
            }
        }
    };
    s.to_bits()
}

type Norm = fn(&[u32]) -> u32;
type Score = fn(Metric, &[u32], u32, &[u32], u32) -> u32;

fn kernel() -> Kernel<Norm, Score> {
    Kernel {
        norm: norm as Norm,
        score: score as Score,
    }
}

fn bits(v: &[f32]) -> Vec<u32> {
    v.iter().map(|x| x.to_bits()).collect()
}

/// Evenly spread between 0 and 1.
fn next_f32(r: &mut Rng) -> f32 {
    (r.next_u24() as f32 + 0.5) / 16_777_217.0
}

const ALL: Option<AllRows> = None;

#[test]
fn top_k_ordering_per_metric() {
    let vectors = bits(&[1.0, 0.0, 0.0, 1.0, -1.0, 0.0]);
    let norms: Vec<u32> = vectors.chunks(2).map(norm).collect();
    let q = bits(&[1.0, 0.0]);

    let by_l2 = flat::search(&kernel(), Metric::L2, &vectors, &norms, 2, &q, &ALL, 2);
    assert_eq!(by_l2[0].0, 0);
    assert!(Metric::L2.is_better(by_l2[0].1, by_l2[1].1));

    let by_dot = flat::search(&kernel(), Metric::Dot, &vectors, &norms, 2, &q, &ALL, 2);
    assert_eq!(by_dot[0].0, 0);
    assert_eq!(f32::from_bits(by_dot[0].1), 1.0);
}

#[test]
fn filter_skips_before_scoring() {
    let vectors = bits(&[1.0, 0.0, 0.0, 1.0]);
    let norms = bits(&[1.0, 1.0]);
    let pass = Some(Passing(|i: u32| i != 0));
    let q = bits(&[1.0, 0.0]);
    let hits = flat::search(&kernel(), Metric::L2, &vectors, &norms, 2, &q, &pass, 5);
    assert_eq!(hits.len(), 1);
    assert_eq!(hits[0].0, 1);
}

#[test]
fn k_zero_returns_empty() {
    let one = bits(&[1.0]);
    let out = flat::search(&kernel(), Metric::Dot, &one, &one, 1, &one, &ALL, 0);
    assert!(out.is_empty());
}

#[test]
fn equal_scores_come_in_the_order_of_rows() {
    let vectors = bits(&[1.0, 2.0, 1.0, 1.0]);
    let norms = bits(&[1.0, 2.0, 1.0, 1.0]);
    let q = bits(&[1.0]);
    let hits = flat::search(&kernel(), Metric::Dot, &vectors, &norms, 1, &q, &ALL, 3);
    let rows: Vec<u32> = hits.iter().map(|h| h.0).collect();
    assert_eq!(rows, vec![1, 0, 2]);
}

#[test]
fn level_sampling_sane() {
    let mut r = Rng::new(1);
    let mut histogram = [0usize; 8];
    for _ in 0..100_000 {
        let l = sample_level(&mut r, 16);
        assert!(l < 8, "level {l} unexpectedly high");
        histogram[l as usize] += 1;
    }
    assert!(histogram[0] > 90_000);
    assert!(histogram[1] > 3_000 && histogram[1] < 10_000);
    assert!(histogram[2] < histogram[1]);
}

#[test]
fn levels_follow_the_logarithm() {
    for m in [1usize, 2, 8, 16, 48] {
        let mut a = Rng::new(5);
        let mut b = Rng::new(5);
        for _ in 0..20_000 {
            let ml = 1.0 / (m.max(2) as f32).ln();
            let want = (-next_f32(&mut a).ln() * ml).floor() as u32;
            assert_eq!(sample_level(&mut b, m), want);
        }
    }
}

#[test]
fn deterministic_and_in_range() {
    let mut a = Rng::new(42);
    let mut b = Rng::new(42);
    for _ in 0..100 {
        assert_eq!(a.next_u64(), b.next_u64());
    }
    let mut r = Rng::new(7);
    for _ in 0..1000 {
        let v = next_f32(&mut r);
        assert!((0.0..1.0).contains(&v));
    }
}

#[test]
fn numbers_are_those_of_xorshift() {
    let mut x: u64 = 42 ^ 0x9E37_79B9_7F4A_7C15;
    let mut r = Rng::new(42);
    for _ in 0..10 {
        x ^= x >> 12;
        x ^= x << 25;
        x ^= x >> 27;
        assert_eq!(r.next_u64(), x.wrapping_mul(0x2545_F491_4F6C_DD1D));
    }
}

#[test]
fn key_roundtrip() {
    for m in [Metric::L2, Metric::Cosine, Metric::Dot] {
        let s = 0.37f32;
        assert_eq!(f32::from_bits(to_score(m, to_key(m, s.to_bits()))), s);
    }
}

#[test]
fn keys_are_smaller_where_scores_are_better() {
    let s = |x: f32| x.to_bits();
    assert_eq!(f32::from_bits(to_key(Metric::L2, s(2.0))), 2.0);
    assert_eq!(f32::from_bits(to_key(Metric::Dot, s(2.0))), -2.0);
    assert!(Metric::L2.is_better(s(1.0), s(2.0)));
    assert!(Metric::Cosine.is_better(s(1.0), s(-2.0)));
    assert!(!Metric::Dot.is_better(s(0.0), s(-0.0)));
    assert!(Metric::L2.passes(s(1.0), s(1.0)));
    assert!(!Metric::L2.passes(s(1.5), s(1.0)));
    assert!(Metric::Dot.passes(s(1.5), s(1.0)));
    assert!(!Metric::Dot.passes(s(f32::NAN), s(1.0)));
}

fn gen_core(n: usize, dim: usize, seed: u64) -> SegmentCore {
    let mut rng = Rng::new(seed);
    let mut vectors = Vec::new();
    let mut norms = Vec::new();
    let ids = (0..n as i64).map(ExternalId::Num).collect();
    for _ in 0..n {
        let mut v: Vec<f32> = (0..dim).map(|_| next_f32(&mut rng) * 2.0 - 1.0).collect();
        if dim >= 2 {
            v[0] += (v[1] * 3.0).sin();
        }
        let v = bits(&v);
        norms.push(norm(&v));
        vectors.extend_from_slice(&v);
    }
    SegmentCore {
        dim,
        vectors,
        norms,
        ids,
        payloads: (0..n).map(|_| None).collect(),
    }
}

fn recall_at(got: &[(u32, u32)], truth: &[(u32, u32)], k: usize) -> f32 {
    let got: std::collections::HashSet<u32> = got.iter().map(|(i, _)| *i).collect();
    let want: std::collections::HashSet<u32> = truth.iter().take(k).map(|(i, _)| *i).collect();
    got.intersection(&want).count() as f32 / want.len().max(1) as f32
}

#[test]
fn small_recall_and_roundtrip() {
    let data = gen_core(600, 32, 7);
    let metric = Metric::L2;
    let params = HnswParams::default();
    let idx = HnswIndex::build(&data, metric, &kernel(), params).unwrap();

    let mut rng = Rng::new(99);
    let mut random = || -> Vec<u32> {
        let v: Vec<f32> = (0..32).map(|_| next_f32(&mut rng) * 2.0 - 1.0).collect();
        bits(&v)
    };
    let mut recalls = Vec::new();
    for _ in 0..20 {
        let q = random();
        let truth = flat::search(
            &kernel(),
            metric,
            &data.vectors,
            &data.norms,
            data.dim,
            &q,
            &ALL,
            10,
        );
        let got = idx.search(&data, metric, &kernel(), &q, 10, &ALL);
        recalls.push(recall_at(&got, &truth, 10));
    }
    let avg: f32 = recalls.iter().sum::<f32>() / recalls.len() as f32;
    assert!(avg >= 0.95, "recall@10 too low: {avg:.3}");

    let bytes = idx.serialize();
    let re = HnswIndex::load(&bytes, data.len()).unwrap();
    let q = random();
    let a = idx.search(&data, metric, &kernel(), &q, 10, &ALL);
    let b = re.search(&data, metric, &kernel(), &q, 10, &ALL);
    assert_eq!(a, b);

    let pass = Some(Passing(|i: u32| i >= 300));
    let got = idx.search(&data, metric, &kernel(), &q, 10, &pass);
    assert!(got.iter().all(|(i, _)| *i >= 300));
}

#[test]
fn links_are_distinct_and_lead_elsewhere() {
    let data = gen_core(400, 8, 5);
    let params = HnswParams {
        m: 4,
        m0: 8,
        ..HnswParams::default()
    };
    let idx = HnswIndex::build(&data, Metric::L2, &kernel(), params).unwrap();
    let g = &idx.graph;
    for n in 0..g.count {
        for l in 0..=g.levels[n as usize] as i32 {
            let links = g.neighbours(n, l);
            let mut sorted = links.to_vec();
            sorted.sort();
            sorted.dedup();
            assert_eq!(sorted.len(), links.len());
            assert!(!links.contains(&n));
        }
    }
}

#[test]
fn levels_follow_the_rounded_draw() {
    for m in [2usize, 16] {
        let ml = 1.0 / (m as f32).ln();
        for seed in 0..20_000u64 {
            let b = Rng::new(seed).next_u24();
            let u = (b as f32 + 0.5) / 16_777_216.0;
            let level = (-u.ln() * ml).floor() as u32;
            assert_eq!(sample_level(&mut Rng::new(seed), m), level, "draw {b}");
        }
    }
}

#[test]
fn empty_core_is_noop() {
    let data = SegmentCore {
        dim: 4,
        vectors: vec![],
        norms: vec![],
        ids: vec![],
        payloads: vec![],
    };
    let idx = HnswIndex::build(&data, Metric::Dot, &kernel(), HnswParams::default()).unwrap();
    let q = bits(&[1.0, 0.0, 0.0, 0.0]);
    assert!(idx
        .search(&data, Metric::Dot, &kernel(), &q, 5, &ALL)
        .is_empty());
    assert!(HnswIndex::load(&idx.serialize(), data.len()).is_ok());
}

#[test]
fn corrupt_index_rejected() {
    let data = gen_core(10, 4, 3);
    let idx = HnswIndex::build(&data, Metric::L2, &kernel(), HnswParams::default()).unwrap();
    let mut bytes = idx.serialize();
    bytes[0] ^= 0xFF;
    assert!(HnswIndex::load(&bytes, data.len()).is_err());
}

#[test]
fn levels_match_layer_vectors_and_roundtrip() {
    let data = SegmentCore {
        dim: 32,
        vectors: (0..600 * 32)
            .map(|i| (i as f32 * 0.01).sin().to_bits())
            .collect(),
        norms: vec![1.0f32.to_bits(); 600],
        ids: (0..600).map(ExternalId::Num).collect(),
        payloads: (0..600).map(|_| None).collect(),
    };
    let idx = HnswIndex::build(&data, Metric::L2, &kernel(), HnswParams::default()).unwrap();
    let g = &idx.graph;
    for n in 0..g.count as usize {
        assert_eq!(
            g.levels[n] as usize,
            g.upper[n].layers.len(),
            "node {n}: levels {} vs layers {}",
            g.levels[n],
            g.upper[n].layers.len()
        );
    }
    let bytes = idx.serialize();
    HnswIndex::load(&bytes, data.len()).unwrap();
}

#[test]
fn other_images_are_refused() {
    let data = gen_core(10, 4, 3);
    let idx = HnswIndex::build(&data, Metric::L2, &kernel(), HnswParams::default()).unwrap();
    let bytes = idx.serialize();
    assert!(matches!(
        HnswIndex::load(&bytes, 11),
        Err(Error::Invalid(Invalid::IndexCount { .. }))
    ));
    assert!(HnswIndex::load(&bytes[..bytes.len() - 1], 10).is_err());
    assert!(HnswIndex::load(&[], 10).is_err());
    let mut version = bytes.clone();
    version[4] ^= 0xFF;
    assert!(HnswIndex::load(&version, 10).is_err());
    let again = HnswIndex::load(&bytes, 10).unwrap();
    assert_eq!(again.serialize(), bytes);
    assert_eq!(again.kind(), "hnsw");
    assert_eq!(again.params().m, 16);
}

#[test]
fn a_wide_search_finds_what_is_nearest() {
    let data = gen_core(60, 8, 11);
    for metric in [Metric::L2, Metric::Cosine, Metric::Dot] {
        let idx = HnswIndex::build(&data, metric, &kernel(), HnswParams::default()).unwrap();
        let q = data.vectors[0..8].to_vec();
        let truth = flat::search(
            &kernel(),
            metric,
            &data.vectors,
            &data.norms,
            8,
            &q,
            &ALL,
            10,
        );
        let got = idx.search(&data, metric, &kernel(), &q, 10, &ALL);
        assert_eq!(recall_at(&got, &truth, 10), 1.0);
    }
}

#[test]
fn the_exact_index_scores_every_row() {
    let data = gen_core(40, 4, 2);
    let flat = flat::FlatIndex::new(&data, Metric::Dot);
    let q = bits(&[0.5, -0.25, 1.0, 2.0]);
    let hits = flat.search(&kernel(), &q, 40, &ALL);
    assert_eq!(hits.len(), 40);
    for w in hits.windows(2) {
        assert!(f32::from_bits(w[0].1) >= f32::from_bits(w[1].1));
    }
    for (row, s) in &hits {
        let v = data.vector(*row);
        assert_eq!(f32::from_bits(*s), dot(&q, v));
    }
    assert_eq!(flat.est_bytes(), 0);
    assert_eq!(flat.kind(), "flat");
}

/// Three rows on a line, each linked with the next one only: 2, -2 and 1.
fn line() -> (SegmentCore, HnswGraph) {
    let vectors = bits(&[2.0, -2.0, 1.0]);
    let data = SegmentCore {
        dim: 1,
        norms: vectors.chunks(1).map(norm).collect(),
        vectors,
        ids: (0..3).map(ExternalId::Num).collect(),
        payloads: vec![None, None, None],
    };
    let mut graph = HnswGraph::new(3, &HnswParams::default());
    graph.set_links(0, 0, &[1]);
    graph.set_links(1, 0, &[0, 2]);
    graph.set_links(2, 0, &[1]);
    graph.entry = 0;
    graph.max_level = 0;
    (data, graph)
}

#[test]
fn a_search_goes_on_behind_equal_keys() {
    let (data, graph) = line();
    let ctx = Ctx {
        graph: &graph,
        data: &data,
        metric: Metric::L2,
        kernel: &kernel(),
    };
    let q = bits(&[0.0]);
    let near = |ef: usize| -> Vec<(u32, f32)> {
        search_layer(&ctx, &q, &[0], ef, 0, &ALL)
            .iter()
            .map(|n| (n.id, f32::from_bits(n.key)))
            .collect()
    };
    assert_eq!(near(0), vec![]);
    // One result is kept: what is as far away does not take its place.
    assert_eq!(near(1), vec![(0, 4.0)]);
    // The last of two results is no nearer than row 1, so its links are followed.
    assert_eq!(near(2), vec![(2, 1.0), (0, 4.0)]);
    assert_eq!(near(3), vec![(2, 1.0), (0, 4.0), (1, 4.0)]);
    // Rows that do not pass are walked through.
    let pass = Some(Passing(|i: u32| i == 2));
    let found = search_layer(&ctx, &q, &[0], 3, 0, &pass);
    assert_eq!(found.len(), 1);
    assert_eq!(found[0].id, 2);
}

#[test]
fn a_descent_takes_the_first_nearest_link() {
    let (data, mut graph) = line();
    let q = bits(&[0.0]);
    let from = |graph: &HnswGraph, start: u32| -> u32 {
        let ctx = Ctx {
            graph,
            data: &data,
            metric: Metric::L2,
            kernel: &kernel(),
        };
        greedy_descend(&ctx, &q, start, 0)
    };
    assert_eq!(from(&graph, 0), 0);
    assert_eq!(from(&graph, 1), 2);
    assert_eq!(from(&graph, 2), 2);
    graph.set_links(0, 0, &[1, 2]);
    assert_eq!(from(&graph, 0), 2);
}

#[test]
fn the_same_rows_give_the_same_graph() {
    let data = gen_core(300, 8, 3);
    let params = HnswParams::default();
    let one = HnswIndex::build(&data, Metric::Cosine, &kernel(), params).unwrap();
    let other = HnswIndex::build(&data, Metric::Cosine, &kernel(), params).unwrap();
    assert_eq!(one.serialize(), other.serialize());
    let q = data.vectors[8..16].to_vec();
    assert_eq!(
        one.search(&data, Metric::Cosine, &kernel(), &q, 10, &ALL),
        other.search(&data, Metric::Cosine, &kernel(), &q, 10, &ALL)
    );
}

#[test]
fn a_loaded_index_is_as_it_was() {
    let data = gen_core(200, 6, 21);
    let params = HnswParams {
        m: 6,
        m0: 12,
        ef_construct: 40,
        ef_search: 17,
    };
    let idx = HnswIndex::build(&data, Metric::L2, &kernel(), params).unwrap();
    let re = HnswIndex::load(&idx.serialize(), data.len()).unwrap();
    assert_eq!(re.params(), params);
    assert_eq!(re.serialize(), idx.serialize());
    for i in 0..20 {
        let q = data.vectors[i * 6..i * 6 + 6].to_vec();
        assert_eq!(
            idx.search(&data, Metric::L2, &kernel(), &q, 5, &ALL),
            re.search(&data, Metric::L2, &kernel(), &q, 5, &ALL)
        );
    }
}
