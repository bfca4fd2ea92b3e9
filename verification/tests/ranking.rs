use annex::commit::{commit_failed, commit_step, write_failed, write_step, CommitStep, WriteStep};
use annex::config::{
    candidate_count, check_pruning_shape, default_bits, default_centroids, default_fde_ksim, default_fde_projected,
    default_fde_repetitions, default_probes, is_finite_matrix, validate_codebooks, validate_config_size, Durability, IndexConfig, IndexError,
    Reason,
};
use annex::error::{ErrorKind, StorageError};
use annex::ids::{is_id_less, is_same_id, IdMap};
use annex::muvera::{hash, nearest_occupied, FdeEncoder, SplitMix64};
use annex::order::{par_rank, par_sort_pairs, rank, sort_pairs, stable_order_of};
use annex::rerank::{group_by_top_n, mmr_select, reciprocal_rank_fusion, weighted_fusion, GroupedResult};
use annex::score;
use annex::sparse::{Bm25Term, SparseIndex, SparseVector};
use annex::xorshift::xorshift;

fn float(bits: u32) -> f32 {
    f32::from_bits(bits)
}

fn bits(values: &[f32]) -> Vec<u32> {
    values.iter().map(|v| v.to_bits()).collect()
}

fn matrix(rows: &[Vec<f32>]) -> Vec<Vec<u32>> {
    rows.iter().map(|row| bits(row)).collect()
}

fn list(pairs: &[(u64, f32)]) -> Vec<(u64, u32)> {
    pairs.iter().map(|(id, s)| (*id, s.to_bits())).collect()
}

fn add(a: u32, b: u32) -> u32 {
    (float(a) + float(b)).to_bits()
}

fn multiply(a: u32, b: u32) -> u32 {
    (float(a) * float(b)).to_bits()
}

fn greater(a: u32, b: u32) -> u32 {
    float(a).max(float(b)).to_bits()
}

fn dot(a: &[u32], b: &[u32]) -> u32 {
    a.iter().zip(b).map(|(x, y)| float(*x) * float(*y)).sum::<f32>().to_bits()
}

fn divide(a: u32, n: usize) -> u32 {
    (float(a) / n as f32).to_bits()
}

fn shrink(a: u32, n: usize) -> u32 {
    (float(a) * (1.0 / n as f32)).to_bits()
}

fn contribution(k: u32, rank: usize) -> u32 {
    (1.0 / (float(k) + rank as f32 + 1.0)).to_bits()
}

#[test]
fn rrf_promotes_docs_ranked_high_in_multiple_lists() {
    let dense = list(&[(1, 0.9), (2, 0.8), (3, 0.7)]);
    let sparse = list(&[(3, 5.0), (1, 4.0), (4, 3.0)]);
    let fused = reciprocal_rank_fusion(&[dense, sparse], 4, 60.0f32.to_bits(), &contribution, &add);
    assert!(fused.iter().any(|(id, _)| *id == 1));
    assert!(fused.iter().any(|(id, _)| *id == 3));
    let pos = |id: u64| fused.iter().position(|(i, _)| *i == id).unwrap();
    assert!(pos(4) > pos(1));
    assert!(pos(4) > pos(3));
    assert_eq!(fused[0], (1, (1.0f32 / 61.0 + 1.0 / 62.0).to_bits()));
    assert_eq!(fused.iter().map(|f| f.0).collect::<Vec<_>>(), [1, 3, 2, 4]);
}

#[test]
fn weighted_fusion_sums_weighted_scores() {
    let sets = [
        (list(&[(1, 1.0), (2, 0.5)]), 2.0f32.to_bits()),
        (list(&[(2, 4.0), (3, 1.0)]), 0.5f32.to_bits()),
    ];
    let fused = weighted_fusion(&sets, 2, &multiply, &add);
    assert_eq!(fused, list(&[(2, 3.0), (1, 2.0)]));
    assert!(weighted_fusion(&sets, 0, &multiply, &add).is_empty());
}

#[test]
fn mmr_prefers_diverse_when_lambda_small() {
    let candidates: Vec<usize> = vec![0, 1, 2, 3];
    let scores = bits(&[0.9, 0.85, 0.8, 0.7]);
    let similarity = |a: &usize, b: &usize| -> u32 {
        (match (a, b) {
            (0..=2, 0..=2) => 0.95f32,
            (3, 3) => 1.0,
            _ => 0.1,
        })
        .to_bits()
    };
    let select = |lambda: f32| {
        let blend = |relevance: u32, most: u32| {
            (lambda * float(relevance) - (1.0 - lambda) * float(most)).to_bits()
        };
        mmr_select(&candidates, &scores, 2, &similarity, &greater, &blend)
    };
    assert_eq!(select(1.0), vec![0, 1]);
    let diverse = select(0.2);
    assert_eq!(diverse[0], 0);
    assert_eq!(diverse[1], 3);
}

#[test]
fn mmr_by_relevance_alone_takes_the_top_and_larger_selections_continue() {
    let candidates: Vec<usize> = (0..6).collect();
    let scores = bits(&[0.2, -0.5, 0.9, 0.4, 0.9, -0.0]);
    let similarity = |a: &usize, b: &usize| (1.0 / (1.0 + a.abs_diff(*b) as f32)).to_bits();
    let select = |lambda: f32, top_k: usize| {
        let blend = |relevance: u32, most: u32| {
            (lambda * float(relevance) - (1.0 - lambda) * float(most)).to_bits()
        };
        mmr_select(&candidates, &scores, top_k, &similarity, &greater, &blend)
    };
    assert_eq!(select(1.0, 4), vec![4, 2, 3, 0]);
    for lambda in [1.0, 0.7, 0.5, 0.0] {
        let all = select(lambda, 9);
        assert_eq!(all.len(), 6);
        assert_eq!(all[0], 4);
        for top_k in 0..=6 {
            assert_eq!(select(lambda, top_k), all[..top_k]);
        }
    }
    // By similarity alone, the farthest from the first comes next.
    assert_eq!(select(0.0, 2), vec![4, 0]);
}

fn grouped<K: Clone>(items: &[(u64, f32, K)]) -> Vec<GroupedResult<K>> {
    items.iter().map(|(id, s, g)| GroupedResult { id: *id, score: s.to_bits(), group: g.clone() }).collect()
}

fn same<K: Eq>(a: &K, b: &K) -> bool {
    a == b
}

#[test]
fn group_by_keeps_top_n_per_group_and_orders_by_leader() {
    let results = grouped(&[
        (1, 0.9, "A"),
        (2, 0.85, "A"),
        (3, 0.8, "B"),
        (4, 0.75, "A"),
        (5, 0.7, "B"),
        (6, 0.65, "C"),
        (7, 0.6, "C"),
        (8, 0.55, "C"),
    ]);
    let kept = group_by_top_n(&results, 2, 3, &same);
    assert_eq!(kept.len(), 6);
    assert!(!kept.iter().any(|r| r.id == 4));
    assert!(!kept.iter().any(|r| r.id == 8));
    assert_eq!(kept[0].id, 1);
}

#[test]
fn group_by_limits_total_groups() {
    let results = grouped(&[(1, 0.9, "A"), (2, 0.85, "B"), (3, 0.8, "C"), (4, 0.75, "D")]);
    let kept = group_by_top_n(&results, 1, 2, &same);
    assert_eq!(kept.len(), 2);
    assert_eq!(kept[0].group, "A");
    assert_eq!(kept[1].group, "B");
    assert!(group_by_top_n(&results, 0, 2, &same).is_empty());
    assert!(group_by_top_n(&results, 2, 0, &same).is_empty());
}

#[test]
fn groups_have_keys_of_any_kind() {
    let results = grouped(&[(1, 0.5, (7, 'a')), (2, 0.9, (7, 'b')), (3, 0.8, (7, 'a')), (4, 0.7, (7, 'b'))]);
    let kept = group_by_top_n(&results, 1, 1, &same);
    assert_eq!(kept.iter().map(|r| (r.id, r.group)).collect::<Vec<_>>(), [(2, (7, 'b'))]);
    let kept = group_by_top_n(&results, 2, 2, &same);
    assert_eq!(kept.iter().map(|r| r.id).collect::<Vec<_>>(), [1, 2, 3, 4]);
}

struct Sparse(SparseIndex);

impl Sparse {
    fn new() -> Sparse {
        Sparse(SparseIndex::new())
    }

    fn upsert(&mut self, id: u64, pairs: &[(u32, f32)]) {
        let vector = sparse(pairs);
        self.0.upsert(
            id,
            &vector,
            &add,
            &|total: u64, len: u32| (f64::from_bits(total) - float(len) as f64).to_bits(),
            &|total: u64, len: u32| (f64::from_bits(total) + float(len) as f64).to_bits(),
        );
    }

    fn search_dot(&self, pairs: &[(u32, f32)], top_k: usize) -> Vec<(u64, u32)> {
        self.0.search_dot(&sparse(pairs), top_k, &multiply, &add)
    }
}

fn sparse(pairs: &[(u32, f32)]) -> SparseVector {
    let pairs: Vec<(u32, u32)> = pairs.iter().map(|(i, v)| (*i, v.to_bits())).collect();
    SparseVector::from_pairs(&pairs)
}

#[test]
fn dot_scores_and_ranks_correctly() {
    let mut idx = Sparse::new();
    idx.upsert(1, &[(0, 1.0), (2, 1.0)]);
    idx.upsert(2, &[(0, 2.0), (5, 1.0)]);
    idx.upsert(3, &[(2, 3.0), (5, 1.0)]);
    let hits = idx.search_dot(&[(0, 1.0), (2, 1.0)], 10);
    assert_eq!(hits[0].0, 3);
    assert!((float(hits[0].1) - 3.0).abs() < 1e-6);
    assert_eq!(hits[1].0, 1);
    assert_eq!(hits[2].0, 2);
    assert_eq!(idx.search_dot(&[(0, 1.0), (2, 1.0)], 1), list(&[(3, 3.0)]));
}

#[test]
fn bm25_favors_rare_terms() {
    let mut idx = Sparse::new();
    idx.upsert(1, &[(0, 5.0)]);
    idx.upsert(2, &[(0, 5.0)]);
    idx.upsert(3, &[(0, 1.0), (100, 1.0)]);
    let (k1, b) = (1.2f32, 0.75f32);
    let weigh = |term: Bm25Term| {
        let avgdl = (f64::from_bits(term.total_len) / term.documents as f64) as f32;
        let df = term.document_frequency as f32;
        let idf = ((term.documents as f32 - df + 0.5) / (df + 0.5) + 1.0).ln();
        let dl = float(term.doc_len).max(1e-6);
        let tf = float(term.term_frequency);
        let denom = tf + k1 * (1.0 - b + b * dl / avgdl.max(1e-6));
        (float(term.query_value) * idf * (tf * (k1 + 1.0)) / denom).to_bits()
    };
    let hits = idx.0.search_bm25(&sparse(&[(0, 1.0), (100, 1.0)]), 10, &weigh, &add);
    assert_eq!(hits[0].0, 3);
    assert_eq!(hits.len(), 3);
    assert_eq!(idx.0.total_len, 12.0f64.to_bits());
}

#[test]
fn upsert_replaces_previous_contribution() {
    let mut idx = Sparse::new();
    idx.upsert(1, &[(0, 10.0)]);
    idx.upsert(1, &[(5, 1.0)]);
    assert!(idx.search_dot(&[(0, 1.0)], 10).is_empty());
    let hits = idx.search_dot(&[(5, 1.0)], 10);
    assert_eq!(hits.len(), 1);
    assert_eq!(hits[0].0, 1);
    assert_eq!(idx.0.len(), 1);
    assert_eq!(idx.0.total_len, 1.0f64.to_bits());
}

#[test]
fn empty_query_or_index_returns_empty() {
    let mut idx = Sparse::new();
    assert!(idx.search_dot(&[], 10).is_empty());
    idx.upsert(1, &[(0, 1.0)]);
    assert!(idx.search_dot(&[], 10).is_empty());
    assert!(SparseVector::new().is_empty());
    assert_eq!(sparse(&[(3, 1.0), (1, 2.0)]).indices, [1, 3]);
}

fn encoder(dimension: usize, ksim: usize, projected: usize, repetitions: usize, seed: u64) -> FdeEncoder {
    FdeEncoder::new(dimension, ksim, projected, repetitions, seed, (1.0f32 / (projected as f32).sqrt()).to_bits())
}

#[test]
fn matching_set_scores_higher() {
    let e = encoder(2, 2, 2, 8, 13);
    let q = matrix(&[vec![1., 0.], vec![0., 1.]]);
    let other = matrix(&[vec![-1., 0.], vec![0., -1.]]);
    let query = e.encode_query(&q, &dot, &add);
    let document = |v: &[Vec<u32>]| e.encode_document(v, &dot, &add, &divide, &shrink);
    assert!(float(dot(&query, &document(&q))) > float(dot(&query, &document(&other))));
}

#[test]
fn corrected_empty_bucket_fill_preserves_average_and_versions_legacy_behavior() {
    let e = encoder(4, 3, 2, 1, 7);
    let scale = (1.0f32 / 2.0f32.sqrt()).to_bits();
    let legacy = FdeEncoder::with_version(4, 3, 2, 1, 7, 1, scale);
    let token = bits(&[1., 0.5, -0.5, 1.]);
    let occupied = hash(&dot, &token, &e.repetitions[0].hash_planes);
    assert_eq!(occupied, 1);
    let doc = vec![token.clone(), token.clone()];
    let encoded = e.encode_document(&doc, &dot, &add, &divide, &shrink);
    let legacy_encoded = legacy.encode_document(&doc, &dot, &add, &divide, &shrink);
    let expected: Vec<f32> = e.repetitions[0].projection.iter().map(|plane| float(dot(&token, plane))).collect();
    let stride = 2;
    let buckets = 1 << 3;
    assert_eq!(e.encoding_version(), 2);
    assert_eq!(legacy.encoding_version(), 1);
    assert_eq!(encoded.len(), buckets * stride);
    for bucket in 0..buckets {
        for (slot, expected) in expected.iter().enumerate() {
            let actual = float(encoded[bucket * stride + slot]);
            assert!((actual - expected).abs() < 1e-5, "bucket {bucket} differs from the occupied average");
            let legacy_expected = if bucket > occupied { expected / 2.0 } else { *expected };
            assert!((float(legacy_encoded[bucket * stride + slot]) - legacy_expected).abs() < 1e-5);
        }
    }
    assert_ne!(encoded, legacy_encoded);
    assert_eq!(e.encode_query(&doc, &dot, &add), legacy.encode_query(&doc, &dot, &add));
}

#[test]
fn generators_give_known_numbers() {
    let mut rng = SplitMix64(0);
    assert_eq!(rng.next(), 0xe220_a839_7b1d_cdaf);
    assert_eq!(rng.next(), 0x6e78_9e6a_a1b9_65f4);
    let mut rng = SplitMix64(0);
    assert_eq!(float(rng.sign()), 1.0);
    assert_eq!(float(rng.sign()), -1.0);
    let mut state = 1u64;
    assert_eq!(xorshift(&mut state), 1082269761);
    assert_eq!(state, 1082269761);
    assert_eq!(encoder(4, 3, 2, 5, 7).output_dimension(), 80);
}

#[test]
fn empty_buckets_take_the_nearest_occupied_one() {
    assert_eq!(nearest_occupied(0, &[0, 0, 3, 1]), Some(2));
    assert_eq!(nearest_occupied(1, &[2, 0, 3, 1]), Some(0));
    assert_eq!(nearest_occupied(3, &[2, 0, 0, 1]), Some(3));
    assert_eq!(nearest_occupied(1, &[0, 0]), None);
}

#[test]
fn numbers_are_told_apart_by_their_bits() {
    assert!(score::is_finite(1.0f32.to_bits()) && !score::is_finite(f32::INFINITY.to_bits()));
    assert!(score::is_nan(f32::NAN.to_bits()) && !score::is_nan(0));
    assert!(score::is_less((-1.0f32).to_bits(), 1.0f32.to_bits()));
    assert!(!score::is_less((-0.0f32).to_bits(), 0.0f32.to_bits()));
    assert!(!score::is_less(f32::NAN.to_bits(), 0.0f32.to_bits()));
    assert_eq!(score::negate(2.5f32.to_bits()), (-2.5f32).to_bits());
    assert!(score::total_rank((-0.0f32).to_bits()) < score::total_rank(0));
    assert_eq!(score::value_rank((-0.0f32).to_bits()), score::value_rank(0));
    for x in [-3.5f32, -0.0, 0.0, 1.0, f32::INFINITY] {
        assert_eq!(score::at_total_rank(score::total_rank(x.to_bits())), x.to_bits());
    }
    assert!(!score::all_finite(&bits(&[1.0, f32::NAN])));
    assert_eq!(score::first_least(&bits(&[2.0, -1.0, -1.0])), 1);
}

#[test]
fn sorts_put_pairs_and_scores_in_order() {
    let pairs = vec![(3i64, 1u64), (-2, 9), (3, 0), (-2, 4)];
    let sorted = vec![(-2, 4), (-2, 9), (3, 0), (3, 1)];
    let mut a = pairs.clone();
    sort_pairs(&mut a);
    assert_eq!(a, sorted);
    let mut b = pairs;
    par_sort_pairs(&mut b);
    assert_eq!(b, sorted);
    let items = list(&[(4, 1.0), (2, 3.0), (1, 1.0), (3, -1.0)]);
    let ranked = list(&[(2, 3.0), (1, 1.0), (4, 1.0)]);
    assert_eq!(rank(&items, 3), ranked);
    assert_eq!(par_rank(&items, 3), ranked);
    assert_eq!(stable_order_of(&[5, 1, 5, 0]), [3, 1, 0, 2]);
}

#[test]
fn ids_stand_in_the_order_of_their_bytes() {
    assert!(is_id_less("a", "b") && is_id_less("a", "aa") && !is_id_less("b", "a"));
    assert!(is_id_less("z", "\u{e9}"));
    assert!(is_same_id("x", "x") && !is_same_id("x", "y"));
    let mut map: IdMap<u32> = IdMap::new();
    assert!(map.is_empty());
    for (id, value) in [("b", 1), ("a", 2), ("c", 3), ("b", 4)] {
        map.insert(id.to_string(), value);
    }
    assert_eq!(map.keys, ["a", "b", "c"]);
    assert_eq!(map.get("b"), Some(&4));
    assert_eq!(map.find("c"), Some(2));
    assert_eq!(map.remove("b"), Some(4));
    assert_eq!(map.remove("b"), None);
    assert!(!map.contains_key("b") && map.len() == 2);
}

#[test]
fn configurations_are_checked_for_range_and_size() {
    let config = IndexConfig::new(128);
    assert_eq!(config.centroids, default_centroids());
    assert_eq!(config.residual_bits, default_bits());
    assert_eq!(config.probes, default_probes());
    assert_eq!(config.fde_repetitions, default_fde_repetitions());
    assert_eq!(config.fde_ksim, default_fde_ksim());
    assert_eq!(config.fde_projected, default_fde_projected());
    assert_eq!(config.validate(), Ok(()));
    assert_eq!(config.output_dimension(), 16 * 8 * 20);
    assert_eq!(IndexConfig::new(0).validate(), Err(IndexError::Invalid(Reason::ConfigShape)));
    let large = IndexConfig { centroids: 1 << 20, ..config };
    assert_eq!(large.validate(), Err(IndexError::Invalid(Reason::ConfigSize)));
    assert_eq!(Durability::default(), Durability::Fsync);
    assert_eq!(candidate_count(3, None), 24);
    assert_eq!(candidate_count(3, Some(1)), 3);
    assert_eq!(candidate_count(usize::MAX, None), usize::MAX);
    assert_eq!(check_pruning_shape(1, 3, 2), Ok(()));
    assert_eq!(check_pruning_shape(0, 3, 2), Err(IndexError::Invalid(Reason::Pruning)));
    assert!(is_finite_matrix(&matrix(&[vec![1.0, 2.0]]), 2));
    assert!(!is_finite_matrix(&matrix(&[vec![1.0]]), 2));
    let small = IndexConfig { centroids: 1, residual_bits: 1, ..IndexConfig::new(2) };
    let centers = matrix(&[vec![1.0, 0.0]]);
    assert_eq!(validate_codebooks(&small, &centers, &bits(&[0.0, 1.0]), true), Ok(()));
    assert_eq!(validate_codebooks(&small, &[], &[], false), Ok(()));
    assert_eq!(
        validate_codebooks(&small, &[], &[], true),
        Err(IndexError::Invalid(Reason::Codebook))
    );
}

#[test]
fn replacements_stop_at_the_first_failure() {
    for sync in [true, false] {
        let plan = if sync {
            vec![
                WriteStep::Create,
                WriteStep::Write,
                WriteStep::SyncFile,
                WriteStep::Rename,
                WriteStep::SyncDirectory,
            ]
        } else {
            vec![WriteStep::Create, WriteStep::Write, WriteStep::Rename]
        };
        let mut steps = Vec::new();
        while let Some(step) = write_step(sync, steps.len()) {
            steps.push(step);
        }
        assert_eq!(steps, plan);
        assert_eq!(write_step(sync, plan.len() + 1), None);
        for (at, step) in plan.iter().enumerate() {
            let error = write_failed(*step, at);
            assert_eq!(error.source, at);
            assert_eq!(error.published, *step == WriteStep::SyncDirectory);
        }
    }
}

#[test]
fn commits_sync_the_segments_before_the_manifest() {
    let steps = |sync: bool| {
        let mut steps = Vec::new();
        while let Some(step) = commit_step(sync, steps.len()) {
            steps.push(step);
        }
        assert_eq!(commit_step(sync, steps.len() + 1), None);
        steps
    };
    assert_eq!(
        steps(true),
        vec![
            CommitStep::SyncObjects,
            CommitStep::SyncFde,
            CommitStep::Replace(WriteStep::Create),
            CommitStep::Replace(WriteStep::Write),
            CommitStep::Replace(WriteStep::SyncFile),
            CommitStep::Replace(WriteStep::Rename),
            CommitStep::Replace(WriteStep::SyncDirectory),
        ]
    );
    assert_eq!(
        steps(false),
        vec![
            CommitStep::Replace(WriteStep::Create),
            CommitStep::Replace(WriteStep::Write),
            CommitStep::Replace(WriteStep::Rename),
        ]
    );
    for (at, step) in steps(true).into_iter().enumerate() {
        let error = commit_failed(step, at);
        assert_eq!(error.source, at);
        assert_eq!(error.published, step == CommitStep::Replace(WriteStep::SyncDirectory));
    }
}

#[test]
fn errors_have_texts_and_classes() {
    assert_eq!(StorageError::Header.message(), "invalid PLAID header");
    assert_eq!(StorageError::Header.kind(), ErrorKind::InvalidData);
    assert_eq!(StorageError::InputShape.kind(), ErrorKind::InvalidInput);
    assert_eq!(StorageError::EmptyFdeSegment.kind(), ErrorKind::UnexpectedEof);
    assert_eq!(Reason::TopK.message(), "top_k must be positive");
    assert_eq!(Reason::UnknownDocument.message(), "unknown document: ");
}

#[test]
fn the_size_check_looks_at_sizes_alone() {
    let config = IndexConfig {
        dimension: 64,
        centroids: 256,
        residual_bits: 9,
        probes: 0,
        fde_repetitions: 8,
        fde_ksim: 4,
        fde_projected: 8,
    };
    assert_eq!(validate_config_size(&config), Ok(()));
    assert_eq!(config.validate(), Err(IndexError::Invalid(Reason::ConfigShape)));
    let large = Err(IndexError::Invalid(Reason::ConfigSize));
    assert_eq!(validate_config_size(&IndexConfig { centroids: 1 << 20, ..config }), large);
    assert_eq!(validate_config_size(&IndexConfig { fde_projected: usize::MAX, ..config }), large);
}
