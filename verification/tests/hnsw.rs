use annex::hnsw::arena::{VectorArena, VectorArenaView};
use annex::hnsw::batch::BatchEntry;
use annex::hnsw::descend::MAX_STEPS;
use annex::hnsw::frame::{adler32, frame, unframe, Body};
use annex::hnsw::graph::{pack_ep, unpack_ep, HNSWIndex, NODE_LIVE, NO_EP};
use annex::hnsw::lid::{batch_order, lid_order, lid_samples};
use annex::hnsw::listing::{max_level_cap_from_env, parse_count};
use annex::hnsw::quant::{screen_dot_scalar, Coding};
use annex::hnsw::queue::{compare, compare_candidates, NodeResult, NodeRoutingEntry};
use annex::hnsw::select::Selection;
use annex::hnsw::snapshot::{upgrade, HnswSnapshot, HnswSnapshotV1};
use annex::hnsw::space::pre_sort_candidates;
use annex::hnsw::types::{DBError, DistanceMetric, NodeCandidate, ScoredPoint, SearchRuntimeOptions};
use rand::rngs::StdRng;
use rand::{Rng, SeedableRng};
use std::cell::Cell;
use std::cmp::Ordering;
use std::collections::HashSet;

fn bits(values: &[f32]) -> Vec<u32> {
    values.iter().map(|v| v.to_bits()).collect()
}

fn float(bits: u32) -> f32 {
    f32::from_bits(bits)
}

fn dot(a: &[u32], b: &[u32]) -> u32 {
    a.iter().zip(b).map(|(x, y)| float(*x) * float(*y)).sum::<f32>().to_bits()
}

fn squared(a: &[u32], b: &[u32]) -> u32 {
    a.iter().zip(b).map(|(x, y)| (float(*x) - float(*y)) * (float(*x) - float(*y))).sum::<f32>().to_bits()
}

fn cosine(a: &[u32], b: &[u32]) -> u32 {
    (1.0 - float(dot(a, b)).clamp(-1.0, 1.0)).to_bits()
}

type Measure = fn(&[u32], &[u32]) -> u32;

fn measure(metric: DistanceMetric) -> Measure {
    match metric {
        DistanceMetric::Cosine => cosine,
        DistanceMetric::Dot => dot,
        DistanceMetric::Euclidean => squared,
    }
}

fn prepared(metric: DistanceMetric, v: &[f32]) -> Vec<u32> {
    if metric != DistanceMetric::Cosine {
        return bits(v);
    }
    let norm = v.iter().map(|x| (*x as f64) * (*x as f64)).sum::<f64>().sqrt();
    if norm == 0.0 {
        return bits(v);
    }
    v.iter().map(|x| ((*x as f64 / norm) as f32).to_bits()).collect()
}

fn lcg(state: &mut u64) -> f32 {
    *state = state.wrapping_mul(6364136223846793005).wrapping_add(1442695040888963407);
    (*state >> 33) as f32 / u32::MAX as f32
}

fn allowance(key: u32, _: usize) -> u32 {
    key
}

/// A graph, and the numbers from which levels are drawn.
struct Graph {
    index: HNSWIndex,
    drawn: u64,
    capping: bool,
}

impl Graph {
    fn new(metric: DistanceMetric, m: usize, ef: usize, cap: usize, dim: usize) -> Graph {
        let scale = 1.0 / (m.max(2) as f64).ln();
        Graph { index: HNSWIndex::new(metric, m, ef, cap, dim, scale.to_bits(), false, 0), drawn: 7, capping: false }
    }

    fn level(&mut self) -> usize {
        let r = (lcg(&mut self.drawn) as f64 * 2.0).clamp(1e-9, 1.0);
        let drawn = (-r.ln() * f64::from_bits(self.index.level_scale)).floor() as usize;
        self.index.clamp_level(drawn)
    }

    fn insert(&mut self, id: u64, v: &[f32]) -> Result<(), DBError> {
        let metric = self.index.metric;
        let score = measure(metric);
        let level = self.level();
        self.index.insert(
            &score,
            &Selection { allowance: &allowance, floor: 0 },
            self.capping,
            id,
            &prepared(metric, v),
            level,
        )
    }

    fn insert_batch(&mut self, batch: &[BatchEntry]) -> Result<usize, DBError> {
        let score = measure(self.index.metric);
        self.index.par_insert_batch(
            &score,
            &Selection { allowance: &allowance, floor: 0 },
            self.capping,
            batch,
            None,
        )
    }

    fn search(&self, query: &[f32], k: usize) -> Result<Vec<ScoredPoint>, DBError> {
        let metric = self.index.metric;
        self.index.search(&measure(metric), &prepared(metric, query), k)
    }

    fn search_ef(&self, query: &[f32], k: usize, ef: usize) -> Vec<ScoredPoint> {
        let metric = self.index.metric;
        let options = SearchRuntimeOptions { ef_search: Some(ef), ..Default::default() };
        self.index.search_with_options(&measure(metric), &prepared(metric, query), k, &options).unwrap()
    }
}

fn found(points: &[ScoredPoint]) -> Vec<u64> {
    points.iter().map(|p| p.id).collect()
}

fn generate_points(n: usize, dim: usize, spread: f32) -> Vec<Vec<f32>> {
    let mut state = 3u64;
    (0..n).map(|_| (0..dim).map(|_| (lcg(&mut state) * 4.0 - 1.0) * spread).collect()).collect()
}

#[test]
fn test_all_metrics_consistency() {
    for metric in [DistanceMetric::Euclidean, DistanceMetric::Cosine, DistanceMetric::Dot] {
        let mut hnsw = Graph::new(metric, 16, 64, 16, 4);
        let points = generate_points(50, 4, 10.0);
        for (i, v) in points.iter().enumerate() {
            hnsw.insert(i as u64, v).unwrap();
        }
        let results = hnsw.search(&points[0], 10).unwrap();
        assert!(!results.is_empty());
        let best = results[0];
        let query = prepared(metric, &points[0]);
        if metric == DistanceMetric::Dot {
            let most = points.iter().map(|v| float(dot(&query, &bits(v)))).fold(f32::NEG_INFINITY, f32::max);
            assert!((float(best.raw_score) - most).abs() < 1e-4);
        } else {
            let actual = measure(metric)(&query, &prepared(metric, &points[best.id as usize]));
            assert!(float(actual) <= 1e-4);
        }
    }
}

#[test]
fn test_hnsw_robust_score_metrics() {
    let vectors: Vec<Vec<f32>> = (1..=1000).map(|i| vec![i as f32, 0.0, 0.0]).collect();
    let mut euclidean = Graph::new(DistanceMetric::Euclidean, 16, 50, 16, 3);
    for (id, v) in vectors.iter().enumerate() {
        euclidean.insert(id as u64, v).unwrap();
    }
    assert_eq!(euclidean.search(&[1.1, 0.0, 0.0], 1).unwrap()[0].id, 0);
    let mut cosine = Graph::new(DistanceMetric::Cosine, 16, 50, 16, 3);
    for (id, v) in vectors.iter().enumerate() {
        cosine.insert(id as u64, v).unwrap();
    }
    let found = cosine.search(&[4.9, 0.0, 0.0], 1).unwrap()[0].id;
    assert!([0, 1, 2, 3, 4].contains(&found), "Cosine similarity returned unexpected ID: {found}");
}

#[test]
fn test_large_insertion_and_ranking_accuracy() {
    let mut hnsw = Graph::new(DistanceMetric::Euclidean, 32, 64, 16, 3);
    for i in 0..1000u64 {
        hnsw.insert(i, &[i as f32, i as f32, i as f32]).unwrap();
    }
    let results = hnsw.search(&[0.0, 0.0, 0.0], 5).unwrap();
    assert_eq!(results[0].id, 0);
    assert_eq!(results.len(), 5);
    for pair in results.windows(2) {
        assert!(float(pair[0].raw_score) <= float(pair[1].raw_score));
    }
}

#[test]
fn test_dot_product_prefers_larger_magnitudes() {
    let mut hnsw = Graph::new(DistanceMetric::Dot, 16, 50, 16, 2);
    hnsw.insert(1, &[1.0, 1.0]).unwrap();
    hnsw.insert(2, &[10.0, 10.0]).unwrap();
    hnsw.insert(3, &[-1.0, -1.0]).unwrap();
    assert_eq!(hnsw.search(&[1.0, 1.0], 3).unwrap()[0].id, 2);
}

#[test]
fn test_cosine_distance_with_opposite_vectors() {
    let mut hnsw = Graph::new(DistanceMetric::Cosine, 16, 50, 16, 3);
    hnsw.insert(1, &[1.0, 0.0, 0.0]).unwrap();
    hnsw.insert(2, &[-1.0, 0.0, 0.0]).unwrap();
    let results = hnsw.search(&[1.0, 0.0, 0.0], 2).unwrap();
    assert_eq!(results[0].id, 1);
    assert_eq!(results[1].id, 2);
}

#[test]
fn test_idempotent_insert_and_query() {
    let mut hnsw = Graph::new(DistanceMetric::Euclidean, 16, 50, 16, 2);
    hnsw.insert(1, &[3.0, 4.0]).unwrap();
    hnsw.insert(1, &[3.0, 4.0]).unwrap();
    let results = hnsw.search(&[3.0, 4.0], 1).unwrap();
    assert_eq!(results.len(), 1);
    assert_eq!(results[0].id, 1);
    assert_eq!(hnsw.index.len(), 1);
}

#[test]
fn test_empty_index_search_returns_empty() {
    let hnsw = Graph::new(DistanceMetric::Euclidean, 16, 50, 16, 2);
    assert!(hnsw.search(&[0.0, 0.0], 10).unwrap().is_empty());
}

#[test]
fn test_dimension_mismatch_is_handled() {
    let mut hnsw = Graph::new(DistanceMetric::Cosine, 16, 50, 16, 5);
    hnsw.insert(1, &[1.0, 1.0, 1.0, 1.0, 1.0]).unwrap();
    let mismatch = DBError::VectorLengthMismatch { expected: 5, actual: 2 };
    assert_eq!(hnsw.insert(2, &[1.0, 2.0]), Err(mismatch));
    assert_eq!(hnsw.search(&[1.0, 2.0], 1), Err(mismatch));
    assert_eq!(hnsw.index.len(), 1);
}

#[test]
fn test_search_k_greater_than_total_points() {
    let mut hnsw = Graph::new(DistanceMetric::Euclidean, 16, 50, 16, 2);
    hnsw.insert(1, &[1.0, 2.0]).unwrap();
    hnsw.insert(2, &[2.0, 3.0]).unwrap();
    assert_eq!(hnsw.search(&[1.5, 2.5], 10).unwrap().len(), 2);
}

#[test]
fn test_single_insertion_exact_retrieval() {
    let mut hnsw = Graph::new(DistanceMetric::Euclidean, 16, 50, 16, 2);
    hnsw.insert(42, &[3.15, 2.71]).unwrap();
    let results = hnsw.search(&[3.15, 2.71], 1).unwrap();
    assert_eq!(results.len(), 1);
    assert_eq!(results[0].id, 42);
    assert!(float(results[0].raw_score) <= 1e-6);
}

#[test]
fn test_insertion_order_independence() {
    let mut hnsw = Graph::new(DistanceMetric::Euclidean, 16, 50, 16, 2);
    hnsw.insert(100, &[5.0, 5.0]).unwrap();
    hnsw.insert(200, &[1.0, 1.0]).unwrap();
    hnsw.insert(300, &[3.0, 3.0]).unwrap();
    assert_eq!(hnsw.search(&[2.9, 2.9], 1).unwrap()[0].id, 300);
}

#[test]
fn test_dense_cloud_retrieval_accuracy() {
    let mut hnsw = Graph::new(DistanceMetric::Euclidean, 16, 64, 16, 3);
    for i in 0..500u64 {
        let offset = i as f32 * 0.01;
        hnsw.insert(i, &[offset, offset, offset]).unwrap();
    }
    assert_eq!(hnsw.search(&[0.0, 0.0, 0.0], 5).unwrap()[0].id, 0);
}

#[test]
fn test_high_dimensional_accuracy() {
    let dim = 64;
    let mut hnsw = Graph::new(DistanceMetric::Euclidean, 16, 64, 16, dim);
    hnsw.insert(1, &vec![1.0; dim]).unwrap();
    hnsw.insert(2, &vec![100.0; dim]).unwrap();
    assert_eq!(hnsw.search(&vec![1.0; dim], 1).unwrap()[0].id, 1);
}

#[test]
fn reorder_rcm_preserves_search_results() {
    let mut graph = Graph::new(DistanceMetric::Cosine, 8, 50, 4, 16);
    let mut state = 12345u64;
    for i in 0..100u64 {
        let v: Vec<f32> = (0..16).map(|_| lcg(&mut state)).collect();
        graph.insert(i, &v).unwrap();
    }
    let query: Vec<f32> = (0..16).map(|j| if j == 0 { 1.0 } else { 0.0 }).collect();
    let before = graph.search(&query, 10).unwrap();
    let degree = graph.index.point_degree(17, 0);
    graph.index.reorder_rcm();
    let after = graph.search(&query, 10).unwrap();
    assert_eq!(found(&before), found(&after));
    assert_eq!(graph.index.point_degree(17, 0), degree);
}

#[test]
fn lid_sort_does_not_regress_recall() {
    let build = |apply_lid: bool| -> Graph {
        let mut graph = Graph::new(DistanceMetric::Cosine, 8, 100, 4, 32);
        let mut state = 42u64;
        let mut entries: Vec<(u64, Vec<u32>)> =
            (0..500u64).map(|i| (i, (0..32).map(|_| lcg(&mut state).to_bits()).collect())).collect();
        if apply_lid {
            let lids: Vec<u32> = (0..entries.len()).map(|i| estimate(&entries, i).to_bits()).collect();
            HNSWIndex::sort_by_lid(&mut entries, &lids);
        }
        for (id, v) in &entries {
            let values: Vec<f32> = v.iter().map(|x| float(*x)).collect();
            graph.insert(*id, &values).unwrap();
        }
        graph
    };
    let mut state = 999u64;
    let queries: Vec<Vec<f32>> = (0..50).map(|_| (0..32).map(|_| lcg(&mut state)).collect()).collect();
    let eval = |graph: &Graph| -> f64 {
        let mut hits = 0usize;
        for q in &queries {
            let truth: HashSet<u64> = found(&graph.search_ef(q, 10, 450)).into_iter().collect();
            hits += graph.search_ef(q, 10, 20).iter().filter(|r| truth.contains(&r.id)).count();
        }
        hits as f64 / (queries.len() * 10) as f64
    };
    let baseline = eval(&build(false));
    let sorted = eval(&build(true));
    assert!(sorted >= baseline - 0.02, "LID recall {sorted:.3} < baseline {baseline:.3} - 0.02");
}

/// An estimate of the local dimensionality around a vector, from its distances to
/// the sampled others.
fn estimate(entries: &[(u64, Vec<u32>)], i: usize) -> f32 {
    let mut distances: Vec<f32> = lid_samples(i, entries.len())
        .into_iter()
        .map(|j| float(squared(&entries[i].1, &entries[j].1)).sqrt())
        .filter(|d| *d > 0.0)
        .collect();
    distances.sort_by(f32::total_cmp);
    let farthest = *distances.last().unwrap();
    let sum: f32 = distances.iter().map(|d| (d / farthest).ln()).sum();
    -(distances.len() as f32) / sum
}

#[test]
fn dot_search_respects_ef_and_matches_full_budget_oracle() {
    const N: usize = 2048;
    const DIM: usize = 16;
    const K: usize = 10;
    let mut rng = StdRng::seed_from_u64(914);
    let mut index = Graph::new(DistanceMetric::Dot, 16, 128, 16, DIM);
    index.index.set_exact_fallback_enabled(false);
    index.capping = true;
    let vectors: Vec<Vec<f32>> = (0..N)
        .map(|i| {
            let scale = 0.2 + (i % 13) as f32 * 0.1;
            (0..DIM).map(|_| scale * rng.random_range(-1.0..1.0)).collect()
        })
        .collect();
    for (id, vector) in vectors.iter().enumerate() {
        index.insert(id as u64, vector).unwrap();
    }
    let work = Cell::new(0usize);
    let counted = |a: &[u32], b: &[u32]| {
        work.set(work.get() + 1);
        dot(a, b)
    };
    let mut narrow_work = 0;
    let mut full_work = 0;
    let mut recalled = 0;
    for _ in 0..20 {
        let query: Vec<f32> = (0..DIM).map(|_| rng.random_range(-2.0..2.0)).collect();
        let mut exact: Vec<(u64, f32)> = vectors
            .iter()
            .enumerate()
            .map(|(id, v)| (id as u64, query.iter().zip(v).map(|(a, b)| a * b).sum()))
            .collect();
        exact.sort_by(|a, b| b.1.total_cmp(&a.1).then_with(|| a.0.cmp(&b.0)));
        let options = SearchRuntimeOptions {
            ef_search: Some(64),
            early_exit_patience: Some(0),
            neighbor_scan_cap_level0: Some(0),
            neighbor_scan_patience: Some(0),
            num_entry_seeds: Some(1),
            ..Default::default()
        };
        work.set(0);
        let narrow = index.index.search_with_options(&counted, &bits(&query), K, &options).unwrap();
        narrow_work += work.get();
        for hit in &narrow {
            let expected = exact.iter().find(|(id, _)| *id == hit.id).unwrap().1;
            assert!((float(hit.raw_score) - expected).abs() < 1e-4);
            assert_eq!(float(hit.sort_key), -float(hit.raw_score));
            recalled += usize::from(exact[..K].iter().any(|(id, _)| *id == hit.id));
        }
        let all_options = SearchRuntimeOptions { ef_search: Some(N), ..options };
        work.set(0);
        let full = index.index.search_with_options(&counted, &bits(&query), K, &all_options).unwrap();
        full_work += work.get();
        assert_eq!(found(&full), exact[..K].iter().map(|r| r.0).collect::<Vec<_>>());
    }
    assert!(recalled >= 160, "approximate recall unexpectedly low: {recalled}/200");
    assert!(narrow_work * 4 < full_work * 3, "ef64 still traverses most of the graph: {narrow_work}/{full_work}");
}

#[test]
fn dot_search_orders_negative_scores_without_normalizing_vectors() {
    let mut index = Graph::new(DistanceMetric::Dot, 8, 32, 16, 2);
    index.index.set_exact_fallback_enabled(false);
    for id in 1..=64u64 {
        index.insert(id, &[id as f32, 1.]).unwrap();
    }
    for (query, expected) in [([-1., 0.], vec![1, 2, 3]), ([1., 0.], vec![64, 63, 62])] {
        let result = index.search_ef(&query, 3, 64);
        assert_eq!(found(&result), expected);
        for hit in result {
            assert_eq!(float(hit.raw_score), query[0] * hit.id as f32);
        }
    }
}

#[test]
fn vector_arena_push_and_get() {
    let mut arena = VectorArena::new(4, 8);
    let v0 = bits(&[1.0, 2.0, 3.0, 4.0]);
    let v1 = bits(&[5.0, 6.0, 7.0, 8.0]);
    assert_eq!(arena.push(&v0), 0);
    assert_eq!(arena.push(&v1), 1);
    assert_eq!(arena.len(), 2);
    let view: VectorArenaView<'_> = arena.view();
    assert_eq!(view.get(0), v0.as_slice());
    assert_eq!(view.get(1), v1.as_slice());
}

#[test]
fn vector_arena_crosses_chunk_boundary() {
    let mut arena = VectorArena::new(2, 4);
    for i in 0..10u64 {
        arena.push(&bits(&[i as f32, i as f32 * 2.0]));
    }
    assert_eq!(arena.len(), 10);
    let view = arena.view();
    for i in 0..10u64 {
        let got = view.get(i as usize);
        assert_eq!(float(got[0]), i as f32);
        assert_eq!(float(got[1]), i as f32 * 2.0);
    }
}

#[test]
fn vector_arena_addresses_stable_across_chunk_growth() {
    let mut arena = VectorArena::new(4, 4);
    arena.push(&bits(&[1.0, 2.0, 3.0, 4.0]));
    let before = arena.view().get(0).as_ptr() as usize;
    for i in 0..20i32 {
        arena.push(&bits(&[i as f32, 0.0, 0.0, 0.0]));
    }
    let after = arena.view().get(0).as_ptr() as usize;
    assert_eq!(before, after, "vector address changed after growth");
    assert_eq!(arena.view().get(0), &bits(&[1.0, 2.0, 3.0, 4.0])[..]);
}

fn small_graph(metric: DistanceMetric) -> Graph {
    let mut graph = Graph::new(metric, 4, 16, 3, 2);
    for i in 0..20u64 {
        let angle = i as f32 * 0.3;
        graph.insert(10 + i, &[angle.cos() * (1.0 + i as f32), angle.sin()]).unwrap();
    }
    graph
}

#[test]
fn batches_insert_new_points_and_end_at_a_bad_vector() {
    let mut graph = Graph::new(DistanceMetric::Euclidean, 4, 16, 3, 2);
    let entry = |id: u64, v: &[f32], level: usize| BatchEntry { id, vector: bits(v), level };
    let batch = [entry(5, &[0., 0.], 0), entry(6, &[1., 0.], 2), entry(5, &[9., 9.], 1), entry(7, &[0., 1.], 0)];
    assert_eq!(graph.insert_batch(&batch), Ok(3));
    assert_eq!(graph.index.ids, vec![5, 6, 7]);
    assert_eq!(graph.index.get_vector(&5), Some(&bits(&[0., 0.])[..]));
    assert_eq!(graph.index.get_entry_point(), Some(6));
    assert_eq!(graph.index.current_max_level(), 2);
    assert_eq!(found(&graph.search(&[0.9, 0.], 2).unwrap()), [6, 5]);
    assert_eq!(graph.insert_batch(&batch), Ok(0));
    let bad = [entry(8, &[2., 2.], 0), entry(9, &[1.], 0)];
    assert_eq!(graph.insert_batch(&bad), Err(DBError::VectorLengthMismatch { expected: 2, actual: 1 }));
    assert_eq!(graph.index.len(), 4);
}

#[test]
fn known_and_repeated_ids_enter_once() {
    let mut graph = small_graph(DistanceMetric::Euclidean);
    let entry = |id: u64, v: &[f32]| BatchEntry { id, vector: bits(v), level: 0 };
    let known = graph.index.get_vector(&12).unwrap().to_vec();
    let batch = [entry(12, &[7., 7.]), entry(50, &[1., 2.]), entry(50, &[3., 4.]), entry(12, &[8., 8.]), entry(40, &[5., 6.])];
    assert_eq!(graph.insert_batch(&batch), Ok(2));
    assert_eq!(graph.index.ids[20..], [50, 40]);
    assert_eq!(graph.index.get_vector(&12), Some(&known[..]));
    assert_eq!(graph.index.get_vector(&50), Some(&bits(&[1., 2.])[..]));
    assert_eq!(graph.insert(50, &[9., 9.]), Ok(()));
    assert_eq!(graph.index.len(), 22);
    assert_eq!(graph.index.get_vector(&50), Some(&bits(&[1., 2.])[..]));
}

#[test]
fn fewer_results_than_asked_for_are_all_that_can_be_reached() {
    let graph = small_graph(DistanceMetric::Euclidean);
    let query = bits(&[3.0, 0.5]);
    let entry = graph.index.entry_point().unwrap();
    let all = graph.index.search_layer_unfiltered(&squared, &query, &[entry], 100, 0);
    assert_eq!(all.len(), 20);
    let some = graph.index.search_layer_unfiltered(&squared, &query, &[entry], 5, 0);
    assert_eq!(some, all[..5]);
    assert!(graph.index.search_layer_unfiltered(&squared, &query, &[entry], 0, 0).is_empty());
    assert_eq!(MAX_STEPS, 1000);
    let near = graph.index.greedy_search_layer_unfiltered(&squared, &query, entry, 0);
    assert!(float(squared(&query, graph.index.vector_slice(near))) <= float(squared(&query, graph.index.vector_slice(entry))));
}

#[test]
fn deleted_points_are_neither_found_nor_entries() {
    let mut graph = small_graph(DistanceMetric::Euclidean);
    let best = graph.search(&[3.0, 0.5], 1).unwrap()[0].id;
    graph.index.mark_deleted(best);
    assert_eq!(graph.index.deleted_count(), 1);
    assert!(graph.index.contains(&best));
    assert_eq!(graph.index.get_vector(&best), None);
    assert_eq!((0..20).filter(|node| graph.index.is_live(*node)).count(), 19);
    assert!(graph.search(&[3.0, 0.5], 20).unwrap().iter().all(|p| p.id != best));
    let entry = graph.index.get_entry_point().unwrap();
    graph.index.mark_deleted(entry);
    assert_ne!(graph.index.get_entry_point(), Some(entry));
    assert_eq!(graph.index.iter_vectors().len(), 20);
    assert_eq!(graph.index.iter_active_vectors().len(), 18);
    assert_eq!(graph.index.iter_active_levels().len(), 18);
    assert_eq!(graph.index.level_histogram().iter().sum::<usize>(), 18);
    graph.index.mark_deleted(entry);
    assert_eq!(graph.index.deleted_count(), 2);
}

#[test]
fn snapshots_give_back_the_points() {
    let mut graph = small_graph(DistanceMetric::Euclidean);
    graph.index.mark_deleted(12);
    let snapshot = graph.index.to_snapshot();
    assert_eq!(snapshot.vectors.len(), 20);
    let restored = HNSWIndex::from_snapshot(snapshot, Some(true), None);
    assert_eq!(restored.len(), 20);
    assert!(restored.exact_fallback_enabled);
    assert_eq!(restored.deleted_count(), 1);
    assert_eq!(restored.get_entry_point(), graph.index.get_entry_point());
    for id in 10..30u64 {
        assert_eq!(restored.get_vector(&id), graph.index.get_vector(&id));
        assert_eq!(restored.point_level(id), graph.index.point_level(id));
        assert_eq!(restored.point_degree(id, 0), graph.index.point_degree(id, 0));
    }
    let query = bits(&[3.0, 0.5]);
    let options = SearchRuntimeOptions { ef_search: Some(40), ..Default::default() };
    let a = restored.search_with_options(&squared, &query, 5, &options).unwrap();
    let b = graph.index.search_with_options(&squared, &query, 5, &options).unwrap();
    assert_eq!(a, b);
}

#[test]
fn older_snapshots_are_brought_up_to_date() {
    let snapshot = small_graph(DistanceMetric::Dot).index.to_snapshot();
    let (m, m0) = (snapshot.m, snapshot.m0);
    let old = HnswSnapshotV1 {
        layers: snapshot.layers,
        vectors: snapshot.vectors,
        levels: snapshot.levels,
        entry_point: snapshot.entry_point,
        metric: snapshot.metric,
        m,
        ef: snapshot.ef,
        ef_construct: snapshot.ef_construct,
        max_level_cap: snapshot.max_level_cap,
        level_scale: snapshot.level_scale,
        current_max_level: snapshot.current_max_level,
        dim: snapshot.dim,
        deleted: snapshot.deleted,
        exact_fallback_enabled: snapshot.exact_fallback_enabled,
        exact_fallback_threshold: snapshot.exact_fallback_threshold,
    };
    let new = upgrade(old);
    assert_eq!(new.m0, m0);
    assert_eq!(HNSWIndex::from_snapshot(new, None, None).len(), 20);
}

#[test]
fn frames_hold_a_version_and_a_checksum() {
    assert_eq!(adler32(b""), 1);
    assert_eq!(adler32(b"Wikipedia"), 0x11e6_0398);
    let framed = frame(b"body");
    assert!(matches!(unframe(&framed), Ok(Body::Versioned(body)) if body == b"body"));
    let mut damaged = framed.clone();
    let last = damaged.len() - 1;
    damaged[last] ^= 1;
    assert_eq!(unframe(&damaged).err(), Some(DBError::SnapshotChecksum));
    assert!(matches!(unframe(b"old"), Ok(Body::Unversioned(body)) if body == b"old"));
}

#[test]
fn entry_points_pack_with_their_level() {
    assert_eq!(unpack_ep(pack_ep(5, 3)), (Some(5), 3));
    assert_eq!(unpack_ep(pack_ep(NO_EP as usize, 2)).0, None);
    let mut graph = Graph::new(DistanceMetric::Euclidean, 4, 16, 3, 2);
    assert_eq!(graph.index.entry_level(), (None, 0));
    assert_eq!(graph.index.alloc_node(9, &bits(&[1., 1.]), 1), Some(0));
    assert_eq!(graph.index.alloc_node(9, &bits(&[1., 1.]), 1), None);
    graph.index.publish_live(0);
    assert_eq!(graph.index.state_of(0), NODE_LIVE);
    graph.index.promote_entry_if_higher(0, 1);
    assert_eq!(graph.index.entry_level(), (Some(0), 1));
    graph.index.promote_entry_if_higher(0, 0);
    assert_eq!(graph.index.entry_level(), (Some(0), 1));
}

#[test]
fn filter_edges_join_sampled_points() {
    let mut graph = small_graph(DistanceMetric::Euclidean);
    let matching: Vec<u64> = (10..30).filter(|id| id % 5 == 0).collect();
    let sampled = graph.index.sample_points(10, &matching);
    assert!(sampled.iter().all(|id| matching.contains(id) && *id != 10));
    assert_eq!(sampled.iter().collect::<HashSet<_>>().len(), sampled.len());
    assert_eq!(sampled.len(), 3);
    assert_ne!(sampled, matching);
    let query = graph.index.get_vector(&10).unwrap().to_vec();
    let before = graph.index.point_degree(10, 0).unwrap();
    let selection = Selection { allowance: &allowance, floor: 0 };
    graph.index.build_filter_aware_edges(&squared, &selection, false, 10, &query, &[matching.clone()]);
    assert!(graph.index.point_degree(10, 0).unwrap() >= before);
    let node = graph.index.idx_of(10).unwrap();
    let targets = graph.index.filter_edge_targets(&squared, &query, &[sampled]);
    let neighbours = graph.index.layer_neighbors(0, node).unwrap();
    assert!(targets.iter().any(|t| neighbours.contains(t)));
}

#[test]
fn edges_are_sorted_and_added_once() {
    let mut graph = small_graph(DistanceMetric::Euclidean);
    let selection = Selection { allowance: &allowance, floor: 0 };
    graph.index.add_bidirectional_edge(&squared, &selection, false, 0, 10, 29);
    let (a, b) = (graph.index.idx_of(10).unwrap(), graph.index.idx_of(29).unwrap());
    let count = |graph: &Graph, from: usize, to: usize| {
        graph.index.layer_neighbors(0, from).unwrap().iter().filter(|n| **n == to).count()
    };
    assert_eq!((count(&graph, a, b), count(&graph, b, a)), (1, 1));
    graph.index.add_one_way_edge(&squared, &selection, false, 0, 10, 29);
    assert_eq!(count(&graph, a, b), 1);
    graph.index.sort_layer_neighbors(&squared, 0, a);
    let list = graph.index.layer_neighbors(0, a).unwrap();
    let keys: Vec<f32> =
        list.iter().map(|n| float(squared(graph.index.vector_slice(a), graph.index.vector_slice(*n)))).collect();
    assert!(keys.windows(2).all(|w| w[0] <= w[1]));
    graph.index.build_edge_distances(&squared);
    assert_eq!(graph.index.edge_dists_l0[a].len(), list.len());
}

#[test]
fn diverse_neighbours_leave_out_what_others_cover() {
    let mut graph = Graph::new(DistanceMetric::Euclidean, 4, 16, 0, 1);
    for (id, x) in [(0u64, 0.0f32), (1, 1.0), (2, 1.1), (3, -2.0)] {
        graph.insert(id, &[x]).unwrap();
    }
    let query = bits(&[0.0]);
    let candidates: Vec<NodeCandidate> = [3usize, 2, 1]
        .iter()
        .map(|n| {
            let key = squared(&query, graph.index.vector_slice(*n));
            NodeCandidate { idx: *n, raw_score: key, sort_key: key }
        })
        .collect();
    let sorted = pre_sort_candidates(&candidates);
    assert_eq!(sorted.iter().map(|c| c.idx).collect::<Vec<_>>(), [1, 2, 3]);
    let selection = Selection { allowance: &allowance, floor: 0 };
    assert_eq!(graph.index.select_diverse_neighbors(&squared, &selection, &sorted, 2, 0), [1, 3]);
}

#[test]
fn codes_stand_for_vectors() {
    let centered = |v: u32| (float(v) * 127.5 + 128.0).clamp(0.0, 255.0).round() as u8;
    let lesser = |a: u32, b: u32| float(a).min(float(b)).to_bits();
    let greater = |a: u32, b: u32| float(a).max(float(b)).to_bits();
    let step = |a: u32, b: u32| {
        let range = float(b) - float(a);
        (if range > 0.0 { range / 255.0 } else { 1.0 }).to_bits()
    };
    let scaled = |v: u32, min: u32, scale: u32| ((float(v) - float(min)) / float(scale)).clamp(0.0, 255.0).round() as u8;
    let coding = Coding { centered: &centered, lesser: &lesser, greater: &greater, step: &step, scaled: &scaled };
    let mut graph = Graph::new(DistanceMetric::Cosine, 4, 16, 0, 2);
    graph.insert(1, &[1.0, 0.0]).unwrap();
    graph.insert(2, &[0.0, -1.0]).unwrap();
    graph.index.quantize_all(&coding);
    assert_eq!(graph.index.quantized_slice(0), [255, 128]);
    assert_eq!(graph.index.quantized_slice(1), [128, 1]);
    let query = HNSWIndex::quantize_query_i8(&bits(&[1.0, 0.0]), &|v: u32| (float(v) * 127.0).round() as i8);
    assert_eq!(query, [127, 0]);
    assert_eq!(screen_dot_scalar(&query, graph.index.quantized_slice(0)), HNSWIndex::screen_dot(&query, &[255, 128]));
    let mut graph = Graph::new(DistanceMetric::Euclidean, 4, 16, 0, 2);
    graph.insert(1, &[0.0, 5.0]).unwrap();
    graph.insert(2, &[255.0, 5.0]).unwrap();
    graph.index.quantize_all(&coding);
    assert_eq!(graph.index.quantized_slice(0), [0, 0]);
    assert_eq!(graph.index.quantized_slice(1), [255, 0]);
    let codes = graph.index.quantize_query(
        &bits(&[10.0, 5.0]),
        &|v: u32| float(v) as i16,
        &|v: u32, min: u32, scale: u32| ((float(v) - float(min)) / float(scale)).round() as i16,
    );
    assert_eq!(codes, [10, 0]);
    assert_eq!(graph.index.sq8_approx_dot(&codes, 1), 2550);
}

#[test]
fn batches_are_ordered_by_descending_estimate() {
    assert_eq!(lid_order(&bits(&[1.0, 3.0, 2.0, 3.0])), [1, 3, 2, 0]);
    assert_eq!(lid_samples(0, 4), [1, 3, 1]);
    let ids = [7u64, 8, 9, 10];
    assert_eq!(batch_order(&ids, &bits(&[1.0, 3.0, 2.0, 3.0])), [1, 3, 2, 0]);
}

#[test]
fn level_caps_are_read_from_text() {
    assert_eq!(parse_count("1_000"), Some(1000));
    assert_eq!(parse_count("+7"), Some(7));
    assert_eq!(parse_count("x"), None);
    assert_eq!(parse_count(""), None);
    assert_eq!(max_level_cap_from_env(Some("5"), None, 16), 5);
    assert_eq!(max_level_cap_from_env(None, None, 16), 16);
    assert_eq!(max_level_cap_from_env(Some("none"), None, 16), 16);
}

#[test]
fn queues_hand_out_the_nearest_and_keep_the_farthest_on_top() {
    let node = |key: f32| NodeCandidate { idx: 0, raw_score: 0, sort_key: key.to_bits() };
    assert_eq!(compare(0.0f32.to_bits(), (-0.0f32).to_bits()), Some(Ordering::Equal));
    assert_eq!(compare(f32::NAN.to_bits(), 0), None);
    assert_eq!(compare_candidates(&node(1.0), &node(2.0)), Some(Ordering::Greater));
    let entry = |key: f32| NodeRoutingEntry { node: node(key), passes_filter: true, budget: 1 };
    assert!(entry(1.0) > entry(2.0));
    assert!(entry(1.0) == entry(1.0));
    assert!(NodeResult(node(1.0)) < NodeResult(node(2.0)));
    assert!(NodeResult(node(1.0)) == NodeResult(node(1.0)));
}

#[test]
fn settings_can_be_changed() {
    let mut graph = Graph::new(DistanceMetric::Dot, 4, 16, 3, 2).index;
    graph.set_ef_construct(33);
    graph.set_ef_search(44);
    graph.set_m0(12);
    graph.set_exact_fallback_threshold(9);
    let summary = graph.config_summary();
    assert_eq!((summary.metric, summary.m, summary.dim), (DistanceMetric::Dot, 4, 2));
    assert_eq!((summary.ef, summary.ef_construct), (44, 33));
    assert_eq!((summary.m0, summary.stored_cap_l0), (12, 12));
    assert_eq!((summary.max_level_cap, summary.exact_fallback_threshold), (3, 9));
    graph.set_m0(0);
    assert_eq!((graph.m0, graph.stored_cap_l0), (1, 12));
    graph.set_stored_cap_l0(0);
    assert_eq!(graph.stored_cap_l0, 1);
    graph.set_stored_cap_l0(20);
    assert_eq!(graph.stored_cap_l0, 20);
}

#[test]
fn entry_points_can_be_set() {
    let mut graph = Graph::new(DistanceMetric::Euclidean, 4, 16, 3, 1);
    for id in 0..5u64 {
        graph.insert(id, &[id as f32]).unwrap();
    }
    graph.index.set_entry_point(3);
    assert_eq!(graph.index.get_entry_point(), Some(3));
    graph.index.set_entry_point(77);
    assert_eq!(graph.index.get_entry_point(), Some(3));
    graph.index.set_current_max_level(9);
    assert_eq!(graph.index.current_max_level(), 3);
    assert_eq!(graph.index.get_entry_point(), Some(3));
}

#[test]
fn neighbours_are_handed_to_a_function() {
    let mut graph = Graph::new(DistanceMetric::Euclidean, 4, 16, 0, 1);
    for id in 0..3u64 {
        graph.insert(id, &[id as f32]).unwrap();
    }
    let count = graph.index.with_layer_neighbors(0, 0, |list: &[usize]| list.len());
    assert_eq!(count, Some(graph.index.layers[0][0].len()));
    assert_eq!(graph.index.with_layer_neighbors(0, 3, |list: &[usize]| list.len()), None);
    assert_eq!(graph.index.with_layer_neighbors(1, 0, |list: &[usize]| list.len()), None);
}

#[test]
fn filtered_descents_end_at_points_that_pass() {
    let mut graph = Graph::new(DistanceMetric::Euclidean, 8, 16, 0, 1);
    for id in 0..6u64 {
        graph.insert(id, &[id as f32]).unwrap();
    }
    let query = bits(&[5.0]);
    let even = |id: u64| -> Result<bool, &'static str> { Ok(id % 2 == 0) };
    let end = graph.index.greedy_search_layer_with_filter(&squared, &even, &query, 0, 0).unwrap();
    assert_eq!(graph.index.ids[end] % 2, 0);
    let broken = |_: u64| -> Result<bool, &'static str> { Err("filter") };
    assert_eq!(graph.index.greedy_search_layer_with_filter(&squared, &broken, &query, 0, 0), Err("filter"));
}

#[test]
fn screening_reorders_and_codes() {
    let centered = |v: u32| (float(v) * 127.5 + 128.0).clamp(0.0, 255.0).round() as u8;
    let pick = |a: u32, _: u32| a;
    let scaled = |_: u32, _: u32, _: u32| 0u8;
    let coding = Coding { centered: &centered, lesser: &pick, greater: &pick, step: &pick, scaled: &scaled };
    let mut graph = Graph::new(DistanceMetric::Cosine, 4, 16, 0, 2);
    for id in 0..8u64 {
        graph.insert(id, &[(id as f32).cos(), (id as f32).sin()]).unwrap();
    }
    let before = graph.search(&[1.0, 0.0], 8).unwrap();
    graph.index.enable_sq8_screening(&coding);
    assert_eq!(found(&graph.search(&[1.0, 0.0], 8).unwrap()), found(&before));
    for node in 0..graph.index.len() {
        let codes: Vec<u8> = graph.index.vector_slice(node).iter().map(|v| centered(*v)).collect();
        assert_eq!(graph.index.quantized_slice(node), codes.as_slice());
    }
}

fn build_random_index(n: usize, dim: usize, m: usize, ef_construct: usize, seed: u64) -> (Graph, Vec<Vec<f32>>) {
    let mut rng = StdRng::seed_from_u64(seed);
    let mut index = Graph::new(DistanceMetric::Cosine, m, ef_construct, 16, dim);
    let mut vecs = Vec::with_capacity(n);
    for i in 0..n {
        let v: Vec<f32> = (0..dim).map(|_| rng.random::<f32>() * 2.0 - 1.0).collect();
        index.insert(i as u64, &v).unwrap();
        vecs.push(v);
    }
    (index, vecs)
}

fn ground_truth(query: &[f32], vecs: &[Vec<f32>], k: usize) -> Vec<usize> {
    let mut scored: Vec<(usize, f32)> = vecs
        .iter()
        .enumerate()
        .map(|(i, v)| {
            let dot: f32 = query.iter().zip(v.iter()).map(|(a, b)| a * b).sum();
            let qa: f32 = query.iter().map(|x| x * x).sum::<f32>().sqrt();
            let va: f32 = v.iter().map(|x| x * x).sum::<f32>().sqrt();
            (i, 1.0 - dot / (qa * va + 1e-9))
        })
        .collect();
    scored.sort_by(|a, b| a.1.partial_cmp(&b.1).unwrap());
    scored.into_iter().take(k).map(|(i, _)| i).collect()
}

fn recall_at_k(results: &[u64], truth: &[usize]) -> f32 {
    results.iter().filter(|&&id| truth.contains(&(id as usize))).count() as f32 / truth.len() as f32
}

/// The mean recall with each of two options, over random queries.
fn recalls(
    index: &Graph,
    vecs: &[Vec<f32>],
    seed: u64,
    queries: usize,
    first: SearchRuntimeOptions,
    second: SearchRuntimeOptions,
) -> (f32, f32) {
    let mut rng = StdRng::seed_from_u64(seed);
    let mut sums = (0.0f32, 0.0f32);
    for _ in 0..queries {
        let query: Vec<f32> = (0..vecs[0].len()).map(|_| rng.random::<f32>() * 2.0 - 1.0).collect();
        let truth = ground_truth(&query, vecs, 10);
        let stored = prepared(DistanceMetric::Cosine, &query);
        let a = index.index.search_with_options(&cosine, &stored, 10, &first).unwrap();
        let b = index.index.search_with_options(&cosine, &stored, 10, &second).unwrap();
        sums.0 += recall_at_k(&found(&a), &truth);
        sums.1 += recall_at_k(&found(&b), &truth);
    }
    (sums.0 / queries as f32, sums.1 / queries as f32)
}

#[test]
fn test_multi_entry_recall_ge_single_entry() {
    let (index, vecs) = build_random_index(8_000, 32, 16, 100, 42);
    assert!(index.index.current_max_level() >= 1, "index needs upper layers for multi-entry to be meaningful");
    let single = SearchRuntimeOptions { ef_search: Some(32), num_entry_seeds: Some(1), ..Default::default() };
    let multi = SearchRuntimeOptions { ef_search: Some(32), num_entry_seeds: Some(3), ..Default::default() };
    let (recall_single, recall_multi) = recalls(&index, &vecs, 1234, 200, single, multi);
    assert!(recall_multi >= recall_single - 0.01, "multi-entry degraded recall: {recall_multi} < {recall_single}");
}

#[test]
fn test_adaptive_ef_improves_hard_queries() {
    let (index, vecs) = build_random_index(8_000, 32, 16, 100, 99);
    let base = SearchRuntimeOptions { ef_search: Some(32), ..Default::default() };
    let adaptive = SearchRuntimeOptions {
        ef_search: Some(32),
        adaptive_ef_high: Some(128),
        adaptive_ef_score_threshold: Some(0.40f32.to_bits()),
        ..Default::default()
    };
    let (recall_base, recall_adaptive) = recalls(&index, &vecs, 5678, 300, base, adaptive);
    assert!(recall_adaptive >= recall_base - 0.005, "adaptive EF degraded recall: {recall_adaptive} < {recall_base}");
}

#[test]
fn test_combined_multi_entry_and_adaptive_ef() {
    let (index, vecs) = build_random_index(8_000, 32, 16, 100, 77);
    let plain = SearchRuntimeOptions { ef_search: Some(32), ..Default::default() };
    let combined = SearchRuntimeOptions {
        ef_search: Some(32),
        num_entry_seeds: Some(3),
        adaptive_ef_high: Some(128),
        adaptive_ef_score_threshold: Some(0.40f32.to_bits()),
        ..Default::default()
    };
    let (recall_plain, recall_combined) = recalls(&index, &vecs, 9999, 300, plain, combined);
    assert!(recall_combined >= recall_plain - 0.005, "combined mode degraded recall: {recall_combined} < {recall_plain}");
}

/// Four points on a line, with these neighbours of each in the only layer.
fn line(neighbours: [Vec<usize>; 4]) -> Graph {
    let mut graph = Graph::new(DistanceMetric::Euclidean, 4, 16, 0, 1);
    for id in 0..4u64 {
        graph.insert(id, &[id as f32]).unwrap();
    }
    for (node, list) in neighbours.into_iter().enumerate() {
        graph.index.layers[0][node] = list;
    }
    graph
}

fn nearest(graph: &Graph, query: f32, options: SearchRuntimeOptions) -> Vec<u64> {
    let options = SearchRuntimeOptions { ef_search: Some(4), ..options };
    found(&graph.index.search_with_options(&squared, &bits(&[query]), 4, &options).unwrap())
}

#[test]
fn neighbour_caps_and_patience_cut_a_scan_short() {
    let graph = line([vec![1, 2, 3], vec![], vec![], vec![]]);
    let capped = |cap: usize| {
        nearest(&graph, 3.0, SearchRuntimeOptions { neighbor_scan_cap_level0: Some(cap), ..Default::default() })
    };
    assert_eq!(nearest(&graph, 3.0, SearchRuntimeOptions::default()), [3, 2, 1, 0]);
    assert_eq!(capped(0), [3, 2, 1, 0]);
    assert_eq!(capped(1), [1, 0]);
    assert_eq!(capped(2), [2, 1, 0]);
    assert_eq!(capped(9), [3, 2, 1, 0]);
    let graph = line([vec![0, 0, 3], vec![], vec![], vec![]]);
    let patient = |patience: usize| {
        nearest(&graph, 3.0, SearchRuntimeOptions { neighbor_scan_patience: Some(patience), ..Default::default() })
    };
    assert_eq!(patient(0), [3, 0]);
    assert_eq!(patient(2), [0]);
    assert_eq!(patient(3), [3, 0]);
}

#[test]
fn early_exits_end_a_search_that_brings_nothing() {
    let graph = line([vec![1, 2], vec![0], vec![3], vec![]]);
    let patient = |patience: usize| {
        nearest(&graph, 0.9, SearchRuntimeOptions { early_exit_patience: Some(patience), ..Default::default() })
    };
    assert_eq!(patient(0), [1, 0, 2, 3]);
    assert_eq!(patient(1), [1, 0, 2]);
    assert_eq!(patient(2), [1, 0, 2, 3]);
}

#[test]
fn expansion_multiplies_the_candidate_list() {
    let (index, vecs) = build_random_index(500, 8, 4, 16, 5);
    let query = prepared(DistanceMetric::Cosine, &vecs[3]);
    let search = |ef: usize, mult: Option<usize>| {
        let options = SearchRuntimeOptions { ef_search: Some(ef), expansion_mult: mult, ..Default::default() };
        index.index.search_with_options(&cosine, &query, 3, &options).unwrap()
    };
    assert_eq!(search(5, Some(4)), search(20, None));
    assert_eq!(search(5, Some(1)), search(5, None));
    assert_eq!(search(5, Some(0)), search(5, None));
    assert_eq!(search(5, Some(usize::MAX)).len(), 3);
}

#[test]
fn batches_enter_in_the_order_of_their_estimates() {
    let batch = |ids: &[u64]| -> Vec<BatchEntry> {
        ids.iter().map(|id| BatchEntry { id: *id, vector: bits(&[*id as f32]), level: 0 }).collect()
    };
    let insert = |ids: &[u64], lids: &[f32]| {
        let mut graph = Graph::new(DistanceMetric::Euclidean, 4, 16, 0, 1);
        let selection = Selection { allowance: &allowance, floor: 0 };
        let lids = bits(lids);
        let count = graph.index.par_insert_batch(&squared, &selection, false, &batch(ids), Some(&lids)).unwrap();
        (count, graph.index.ids.clone())
    };
    assert_eq!(insert(&[10, 11, 12, 13], &[1.0, 3.0, 2.0, 3.0]), (4, vec![11, 13, 12, 10]));
    assert_eq!(insert(&[10, 11, 12], &[1.0, 3.0, 2.0]), (3, vec![10, 11, 12]));
    assert_eq!(insert(&[10, 11, 10, 13], &[1.0, 3.0, 2.0, 3.0]), (3, vec![11, 13, 10]));
}

#[test]
fn the_snapshot_of_a_restored_graph_says_the_same() {
    let mut graph = small_graph(DistanceMetric::Euclidean);
    graph.index.mark_deleted(12);
    let sorted = |mut snapshot: HnswSnapshot| {
        snapshot.vectors.sort();
        snapshot.levels.sort();
        snapshot.deleted.sort();
        for (_, lists) in &mut snapshot.layers {
            lists.sort();
        }
        snapshot
    };
    let first = sorted(graph.index.to_snapshot());
    let again = sorted(HNSWIndex::from_snapshot(graph.index.to_snapshot(), Some(true), None).to_snapshot());
    assert_eq!(first.layers, again.layers);
    assert_eq!(first.vectors, again.vectors);
    assert_eq!(first.levels, again.levels);
    assert_eq!(first.deleted, again.deleted);
    assert_eq!(first.entry_point, again.entry_point);
    assert_eq!((first.m, first.m0, first.stored_cap_l0), (again.m, again.m0, again.stored_cap_l0));
    assert_eq!((first.ef, first.ef_construct), (again.ef, again.ef_construct));
    assert_eq!((first.max_level_cap, first.level_scale), (again.max_level_cap, again.level_scale));
    assert_eq!((first.current_max_level, first.dim), (again.current_max_level, again.dim));
    assert!(again.exact_fallback_enabled && !first.exact_fallback_enabled);
}
