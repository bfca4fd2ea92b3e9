use annex::commit::{commit_failed, commit_step, CommitError, CommitStep, WriteStep};
use annex::config::{Durability, IndexConfig, IndexError, Reason};
use annex::engine::answer::Segments;
use annex::engine::assemble::{GraphSettings, GRAPH_LEVELS};
use annex::engine::index::MultiVectorIndex;
use annex::engine::late::{maxsim, maxsim_flat, Kernels};
use annex::engine::manifest::{Manifest, ManifestEnvelope, SegmentBoundaries};
use annex::engine::rank::{CandidateHit, Hit, IndexStats};
use annex::engine::stage::{Encoding, Upsert, UpsertDocument};
use annex::engine::state::State;
use annex::engine::update::UpdateError;
use annex::error::StorageError;
use annex::hnsw::graph::HNSWIndex;
use annex::hnsw::select::Selection;
use annex::hnsw::types::{DBError, ScoredPoint};
use annex::muvera::FdeEncoder;
use annex::serve;
use annex::serve::{PlanError, QueryKnobs, ServeError};
use annex::storage::{CompressedVectorStore, FixedVectorStore};
use std::collections::{HashMap, HashSet};
use std::sync::Arc;

const SEED: u64 = 0x4d55_5645_5241;

fn bits(values: &[f32]) -> Vec<u32> {
    values.iter().map(|v| v.to_bits()).collect()
}

fn matrix(rows: &[Vec<f32>]) -> Vec<Vec<u32>> {
    rows.iter().map(|row| bits(row)).collect()
}

fn words(bytes: &[u8]) -> Vec<u32> {
    bytes.chunks_exact(4).map(|c| u32::from_ne_bytes([c[0], c[1], c[2], c[3]])).collect()
}

fn float(bits: u32) -> f32 {
    f32::from_bits(bits)
}

fn normalize(v: &[u32]) -> Vec<u32> {
    let norm = v.iter().map(|x| float(*x) * float(*x)).sum::<f32>().sqrt();
    if !norm.is_finite() {
        let norm = v.iter().map(|x| (float(*x) as f64).powi(2)).sum::<f64>().sqrt();
        return v.iter().map(|x| ((float(*x) as f64 / norm) as f32).to_bits()).collect();
    }
    if norm == 0.0 {
        return vec![0; v.len()];
    }
    v.iter().map(|x| (float(*x) / norm).to_bits()).collect()
}

fn dot(a: &[u32], b: &[u32]) -> u32 {
    let mut sum = 0.0f32;
    for i in 0..a.len().min(b.len()) {
        sum += float(a[i]) * float(b[i]);
    }
    sum.to_bits()
}

fn distance(a: &[u32], b: &[u32]) -> u32 {
    a.iter().zip(b).map(|(x, y)| (float(*x) - float(*y)) * (float(*x) - float(*y))).sum::<f32>().to_bits()
}

fn greater(a: u32, b: u32) -> u32 {
    float(a).max(float(b)).to_bits()
}

fn add(a: u32, b: u32) -> u32 {
    (float(a) + float(b)).to_bits()
}

fn subtract(a: u32, b: u32) -> u32 {
    (float(a) - float(b)).to_bits()
}

fn gap(a: u32, b: u32) -> u32 {
    (float(a) - float(b)).abs().to_bits()
}

fn level_gap(value: u32, center: u32, level: u32) -> u32 {
    (float(value) - float(center) - float(level)).abs().to_bits()
}

fn divide(a: u32, n: usize) -> u32 {
    (float(a) / n as f32).to_bits()
}

fn shrink(a: u32, n: usize) -> u32 {
    (float(a) * (1.0 / n as f32)).to_bits()
}

fn allowance(key: u32, _: usize) -> u32 {
    key
}

fn encoder(config: &IndexConfig, version: u32) -> FdeEncoder {
    FdeEncoder::with_version(
        config.dimension,
        config.fde_ksim,
        config.fde_projected,
        config.fde_repetitions,
        SEED,
        version,
        (1.0f32 / (config.fde_projected as f32).sqrt()).to_bits(),
    )
}

/// What a change ended in.
#[derive(Debug, PartialEq)]
enum Outcome {
    Done,
    Refused(IndexError),
    Failed(&'static str),
    Uncertain(&'static str),
}

/// An index with its segments in memory, and the state that was last published.
struct Fixture {
    index: MultiVectorIndex,
    encoder: FdeEncoder,
    objects: Vec<u8>,
    fde: Vec<u32>,
    disk: Option<(State, SegmentBoundaries)>,
    /// The stage at which a change fails, and at which time it is reached.
    fail_at: Option<(&'static str, usize)>,
}

impl Fixture {
    fn open(config: IndexConfig) -> Fixture {
        let (index, boundaries) = MultiVectorIndex::open(config, None, &[], &[], &add).unwrap();
        assert_eq!(boundaries, SegmentBoundaries { objects: 0, fde: 0 });
        let encoder = encoder(&config, index.fde_encoding_version);
        Fixture { index, encoder, objects: Vec::new(), fde: Vec::new(), disk: None, fail_at: None }
    }

    fn fde_bytes(&self) -> &[u8] {
        bytemuck::cast_slice(&self.fde)
    }

    fn segments(&self) -> Segments<'_> {
        Segments { objects: &self.objects, fde: self.fde_bytes() }
    }

    fn boundaries(&self) -> SegmentBoundaries {
        SegmentBoundaries { objects: self.objects.len() as u64, fde: self.fde_bytes().len() as u64 }
    }

    /// The manifest that was last published.
    fn manifest(&self) -> Option<Manifest> {
        self.disk.as_ref().map(|(state, boundaries)| self.index.persist(state, *boundaries))
    }

    fn reopen(&self) -> Result<Fixture, IndexError> {
        self.reopen_from(self.manifest().map(|m| (m, true)), &self.objects, &self.fde)
    }

    fn reopen_from(
        &self,
        manifest: Option<(Manifest, bool)>,
        objects: &[u8],
        fde: &[u32],
    ) -> Result<Fixture, IndexError> {
        let (index, boundaries) = MultiVectorIndex::open_with_durability(
            self.index.config,
            self.index.durability,
            manifest,
            objects,
            bytemuck::cast_slice(fde),
            &add,
        )?;
        let encoder = encoder(&index.config, index.fde_encoding_version);
        let disk = Some((index.state.copy(), boundaries));
        Ok(Fixture {
            encoder,
            objects: objects[..boundaries.objects as usize].to_vec(),
            fde: fde[..boundaries.fde as usize / 4].to_vec(),
            disk,
            fail_at: None,
            index,
        })
    }

    /// Whether a change fails at a stage that it reached.
    fn fails(&mut self, stage: &'static str) -> bool {
        match self.fail_at {
            Some((name, left)) if name == stage => {
                self.fail_at = if left > 1 { Some((name, left - 1)) } else { None };
                left == 1
            }
            _ => false,
        }
    }

    /// Publishes a state: performs the steps of a commit, up to the first that fails.
    fn publish(&mut self, next: &State) -> Result<(), CommitError<&'static str>> {
        let sync = self.index.durability == Durability::Fsync;
        let boundaries = self.boundaries();
        let mut done = 0;
        while let Some(step) = commit_step(sync, done) {
            let failed = match step {
                CommitStep::SyncObjects => self.fails("objects_synced"),
                CommitStep::SyncFde => self.fails("fde_synced"),
                CommitStep::Replace(WriteStep::Create) => false,
                CommitStep::Replace(WriteStep::Write) => self.fails("manifest_partial_write"),
                CommitStep::Replace(WriteStep::SyncFile) => self.fails("manifest_written"),
                CommitStep::Replace(WriteStep::Rename) => self.fails("manifest_synced"),
                CommitStep::Replace(WriteStep::SyncDirectory) => {
                    self.fails("manifest_renamed") || self.fails("directory_synced")
                }
            };
            if failed {
                return Err(commit_failed(step, "fault"));
            }
            if step == CommitStep::Replace(WriteStep::Rename) {
                self.disk = Some((next.copy(), boundaries));
            }
            done += 1;
        }
        Ok(())
    }

    fn commit(&mut self, next: State) -> Outcome {
        let outcome = self.publish(&next);
        match self.index.finish_commit(next, outcome) {
            Ok(()) => Outcome::Done,
            Err(UpdateError::Io(e)) => Outcome::Failed(e),
            Err(UpdateError::CommitUncertain(e)) => Outcome::Uncertain(e),
        }
    }

    fn train(&mut self, samples: &[Vec<f32>], iterations: usize) -> Outcome {
        let samples = matrix(samples);
        match self.index.train(&samples, iterations, &normalize, &distance, &add, &subtract, &gap, &divide) {
            Ok(next) => self.commit(next),
            Err(e) => Outcome::Refused(e),
        }
    }

    fn stage(&self, batch: Vec<UpsertDocument>) -> Result<Option<Upsert>, IndexError> {
        let kernels = Encoding {
            normalize: &normalize,
            dot: &dot,
            distance: &distance,
            gap: &level_gap,
            add: &add,
            divide: &divide,
            shrink: &shrink,
        };
        let lengths = self.boundaries();
        self.index.upsert_batch(batch, lengths.objects, lengths.fde, &self.encoder, &kernels)
    }

    /// Appends what a document writes; a failure leaves what was appended before it.
    fn append(&mut self, objects: &[u8], fde: &[u32]) -> bool {
        let half = objects.len() / 2 + 1;
        self.objects.extend_from_slice(&objects[..half]);
        if self.fails("object_partial_write") {
            return false;
        }
        self.objects.extend_from_slice(&objects[half..]);
        if self.fails("object_appended") {
            return false;
        }
        let half = fde.len() / 2 + 1;
        self.fde.extend_from_slice(&fde[..half]);
        if self.fails("fde_partial_write") {
            return false;
        }
        self.fde.extend_from_slice(&fde[half..]);
        !self.fails("fde_appended")
    }

    fn upsert_batch(&mut self, batch: Vec<UpsertDocument>) -> Outcome {
        match self.stage(batch) {
            Ok(None) => Outcome::Done,
            Ok(Some(upsert)) => {
                for write in &upsert.writes {
                    if !self.append(&write.objects, &words(&write.fde)) {
                        return Outcome::Failed("fault");
                    }
                }
                self.commit(upsert.state)
            }
            Err(e) => Outcome::Refused(e),
        }
    }

    fn upsert(&mut self, id: &str, vectors: Vec<Vec<f32>>, metadata: &str) -> Outcome {
        let document =
            UpsertDocument { id: id.to_string(), vectors: matrix(&vectors), metadata: metadata.to_string() };
        self.upsert_batch(vec![document])
    }

    /// Whether there was such a document, or why it is still there.
    fn delete(&mut self, id: &str) -> Result<bool, Outcome> {
        match self.index.delete(id) {
            Ok(None) => Ok(false),
            Ok(Some(next)) => match self.commit(next) {
                Outcome::Done => Ok(true),
                outcome => Err(outcome),
            },
            Err(e) => Err(Outcome::Refused(e)),
        }
    }

    fn assemble(&self, m: usize, ef_construct: usize) -> Result<HNSWIndex, IndexError> {
        let settings = GraphSettings {
            m,
            ef_construct,
            max_level_cap: GRAPH_LEVELS,
            level_scale: (1.0 / (m.max(2) as f64).ln()).to_bits(),
            exact_fallback_enabled: true,
            exact_fallback_threshold: 0,
        };
        let levels: Vec<usize> = (0..self.index.state.documents.len()).map(|i| if i % 3 == 0 { 1 } else { 0 }).collect();
        let selection = Selection { allowance: &allowance, floor: 0 };
        self.index.build_graph(self.fde_bytes(), &settings, &levels, &dot, &selection, false)
    }

    fn build_fde_ann(&mut self, m: usize, ef_construct: usize) -> Result<usize, Outcome> {
        let graph = self.assemble(m, ef_construct).map_err(Outcome::Refused)?;
        if self.fails("ann_built_before_publish") {
            return Err(Outcome::Failed("fault"));
        }
        self.index.build_fde_ann(self.index.state.generation, graph).map_err(Outcome::Refused)
    }

    /// The graph that is in use.
    fn graph(&self) -> &Arc<HNSWIndex> {
        &self.index.state.fde_ann.as_ref().unwrap().graph
    }

    fn query(&self, vectors: &[Vec<f32>], top_k: usize, candidates: Option<usize>) -> Result<Vec<Hit>, IndexError> {
        self.index.query(&matrix(vectors), top_k, candidates, &self.encoder, self.segments(), &kernels())
    }

    fn query_with_centroid_pruning(
        &self,
        vectors: &[Vec<f32>],
        top_k: usize,
        candidates: usize,
        rerank: usize,
    ) -> Result<Vec<Hit>, IndexError> {
        self.index.query_with_centroid_pruning(
            &matrix(vectors),
            top_k,
            candidates,
            rerank,
            &self.encoder,
            self.segments(),
            &kernels(),
        )
    }

    fn query_with_probes(
        &self,
        vectors: &[Vec<f32>],
        top_k: usize,
        candidates: Option<usize>,
        probes: usize,
    ) -> Result<Vec<Hit>, IndexError> {
        self.index.query_with_probes(&matrix(vectors), top_k, candidates, probes, &self.objects, &kernels())
    }

    fn query_with_fde_ann(
        &self,
        vectors: &[Vec<f32>],
        top_k: usize,
        candidates: Option<usize>,
        ef: usize,
    ) -> Result<Vec<Hit>, IndexError> {
        self.index.query_with_fde_ann(
            &matrix(vectors),
            top_k,
            candidates,
            ef,
            &self.encoder,
            self.segments(),
            &kernels(),
        )
    }

    fn query_with_fde_ann_and_pruning(
        &self,
        vectors: &[Vec<f32>],
        top_k: usize,
        candidates: usize,
        rerank: usize,
        ef: usize,
    ) -> Result<Vec<Hit>, IndexError> {
        self.index.query_with_fde_ann_and_pruning(
            &matrix(vectors),
            top_k,
            candidates,
            rerank,
            ef,
            &self.encoder,
            self.segments(),
            &kernels(),
        )
    }

    fn query_auto_with_backend(
        &self,
        vectors: &[Vec<f32>],
        top_k: usize,
        candidates: Option<usize>,
        ef: usize,
    ) -> Result<(Vec<Hit>, &'static str), IndexError> {
        self.index.query_auto_with_backend(
            &matrix(vectors),
            top_k,
            candidates,
            ef,
            &self.encoder,
            self.segments(),
            &kernels(),
        )
    }

    fn query_auto(
        &self,
        vectors: &[Vec<f32>],
        top_k: usize,
        candidates: Option<usize>,
        ef: usize,
    ) -> Result<Vec<Hit>, IndexError> {
        self.index.query_auto(
            &matrix(vectors),
            top_k,
            candidates,
            ef,
            &self.encoder,
            self.segments(),
            &kernels(),
        )
    }

    fn exact_fde_candidates(&self, vectors: &[Vec<f32>], count: usize) -> Result<Vec<CandidateHit>, IndexError> {
        self.index.exact_fde_candidates(&matrix(vectors), count, &self.encoder, self.segments(), &kernels())
    }

    fn ann_fde_candidates(
        &self,
        vectors: &[Vec<f32>],
        count: usize,
        ef: usize,
    ) -> Result<Vec<CandidateHit>, IndexError> {
        self.index.ann_fde_candidates(
            &matrix(vectors),
            count,
            ef,
            &self.encoder,
            self.segments(),
            &kernels(),
        )
    }

    fn score_compressed(&self, query: &[Vec<f32>], id: &str) -> Result<f32, IndexError> {
        self.index.score_compressed(&matrix(query), id, &self.objects, &kernels()).map(float)
    }

    fn serve(&self, knobs: &QueryKnobs, vectors: &[Vec<f32>], top_k: usize) -> Result<Vec<Hit>, ServeError> {
        serve::query(
            &self.index,
            knobs,
            &matrix(vectors),
            top_k,
            &self.encoder,
            self.segments(),
            &kernels(),
        )
    }

    fn stats(&self) -> IndexStats {
        self.index.stats()
    }

    fn versions(&self) -> Vec<(String, String)> {
        let mut hits: Vec<_> = self
            .query(&[vec![1., 0., 0.]], 100, Some(100))
            .unwrap()
            .into_iter()
            .map(|hit| (hit.id, hit.metadata))
            .collect();
        hits.sort();
        hits
    }
}

type Normalize = fn(&[u32]) -> Vec<u32>;
type Measure = fn(&[u32], &[u32]) -> u32;
type Binary = fn(u32, u32) -> u32;

const NORMALIZE: Normalize = normalize;
const DOT: Measure = dot;
const GREATER: Binary = greater;
const ADD: Binary = add;

fn kernels() -> Kernels<'static, Normalize, Measure, Binary, Binary> {
    Kernels { normalize: &NORMALIZE, dot: &DOT, greater: &GREATER, add: &ADD }
}

fn ids(hits: &[Hit]) -> Vec<&str> {
    hits.iter().map(|hit| hit.id.as_str()).collect()
}

fn assert_close(actual: f32, expected: f32) {
    assert!(
        (actual - expected).abs() <= 1e-4 * expected.abs().max(1.),
        "actual score {actual} differs from oracle {expected}"
    );
}

fn three_dimensions(centroids: usize, probes: usize, fde_repetitions: usize) -> IndexConfig {
    IndexConfig {
        dimension: 3,
        centroids,
        residual_bits: 2,
        probes,
        fde_repetitions,
        fde_ksim: 2,
        fde_projected: 2,
    }
}

#[test]
fn late_interaction_persists_and_ranks() {
    let mut index = Fixture::open(three_dimensions(2, 2, 8));
    let samples = [vec![1., 0., 0.], vec![0., 1., 0.], vec![0., 0., 1.], vec![0., 0.1, 0.9]];
    assert_eq!(index.train(&samples, 5), Outcome::Done);
    let code = [vec![1., 0., 0.], vec![0., 1., 0.]];
    assert_eq!(index.upsert("code", code.to_vec(), "{\"kind\":\"code\"}"), Outcome::Done);
    let prose = vec![vec![0., 0., 1.], vec![0., 0.1, 0.9]];
    assert_eq!(index.upsert("prose", prose, "{\"kind\":\"text\"}"), Outcome::Done);
    let hits = index.query(&code, 2, None).unwrap();
    assert_eq!(hits[0].id, "code");
    assert!(float(hits[0].score) > float(hits[1].score));
    assert_eq!(index.query_with_centroid_pruning(&code, 1, 2, 1).unwrap()[0].id, "code");
    index.build_fde_ann(4, 16).unwrap();
    assert_eq!(index.stats().fde_ann_nodes, 2);
    let exact_candidates = index.exact_fde_candidates(&code, 2).unwrap();
    let ann_candidates = index.ann_fde_candidates(&code, 2, 16).unwrap();
    assert_eq!(exact_candidates[0].id, "code");
    assert!(!ann_candidates.is_empty());
    for candidate in &ann_candidates {
        let exact = exact_candidates.iter().find(|exact| exact.id == candidate.id).unwrap();
        assert_close(float(candidate.score), float(exact.score));
    }
    assert_eq!(index.query_with_fde_ann(&code, 1, Some(2), 16).unwrap()[0].id, "code");
    assert_eq!(index.query_with_fde_ann_and_pruning(&code, 1, 2, 1, 16).unwrap()[0].id, "code");
    let restored = index.reopen().unwrap();
    assert_eq!(restored.query(&[vec![0., 0., 1.]], 1, None).unwrap()[0].id, "prose");
    assert_eq!(restored.stats().documents, 2);
}

#[test]
fn overwrites_deletes_and_validates() {
    let mut index = Fixture::open(IndexConfig::new(2));
    let samples: Vec<_> = (0..64).map(|i| vec![i as f32 / 64., 1. - i as f32 / 64.]).collect();
    assert_eq!(index.train(&samples, 2), Outcome::Done);
    assert_eq!(index.upsert("a", vec![vec![1., 0.]], "null"), Outcome::Done);
    assert_eq!(index.upsert("a", vec![vec![0., 1.]], "{\"version\":2}"), Outcome::Done);
    assert_eq!(index.stats().documents, 1);
    assert_eq!(index.query(&[vec![0., 1.]], 1, None).unwrap()[0].metadata, "{\"version\":2}");
    assert_eq!(index.delete("a"), Ok(true));
    assert_eq!(index.delete("a"), Ok(false));
    assert_eq!(
        index.upsert("bad", vec![vec![1., 2., 3.]], "null"),
        Outcome::Refused(IndexError::Invalid(Reason::Vectors(2)))
    );
}

#[test]
fn delete_after_hnsw_never_returns_stale_docs() {
    let mut config = IndexConfig::new(4);
    config.centroids = 4;
    config.fde_repetitions = 4;
    config.fde_ksim = 2;
    config.fde_projected = 2;
    let mut index = Fixture::open(config);
    let samples: Vec<_> = (0..32)
        .map(|i| {
            let mut v = vec![0.0f32; 4];
            v[i % 4] = 1.0 + (i as f32) * 0.01;
            v
        })
        .collect();
    assert_eq!(index.train(&samples, 3), Outcome::Done);
    for id in ["a", "b", "c", "d", "e"] {
        let tok = match id {
            "a" => vec![1.0f32, 0.0, 0.0, 0.0],
            "b" => vec![0.0, 1.0, 0.0, 0.0],
            "c" => vec![0.0, 0.0, 1.0, 0.0],
            "d" => vec![0.0, 0.0, 0.0, 1.0],
            _ => vec![0.5, 0.5, 0.0, 0.0],
        };
        assert_eq!(index.upsert(id, vec![tok], "null"), Outcome::Done);
    }
    index.build_fde_ann(8, 32).unwrap();
    let query = [vec![1.0, 0.0, 0.0, 0.0]];
    let baseline = index.query_with_fde_ann(&query, 5, None, 32).unwrap();
    assert!(baseline.iter().any(|h| h.id == "a"));
    assert_eq!(index.delete("a"), Ok(true));
    assert!(index.index.hnsw_ready());
    let after_delete = index.query_with_fde_ann(&query, 5, None, 32).unwrap();
    assert!(after_delete.iter().all(|hit| hit.id != "a"));
    assert_eq!(after_delete.len(), 4);
    let candidates = index.ann_fde_candidates(&query, 5, 32).unwrap();
    assert!(candidates.iter().all(|candidate| candidate.id != "a"));
    index.build_fde_ann(8, 32).unwrap();
    let after_rebuild = index.query_with_fde_ann(&query, 5, None, 32).unwrap();
    assert!(!after_rebuild.iter().any(|h| h.id == "a"));
}

#[test]
fn query_auto_dispatches_to_hnsw_and_keeps_it_ready_after_writes() {
    let mut index = Fixture::open(three_dimensions(2, 2, 8));
    let samples = [vec![1., 0., 0.], vec![0., 1., 0.], vec![0., 0., 1.], vec![0., 0.1, 0.9]];
    assert_eq!(index.train(&samples, 5), Outcome::Done);
    index.upsert("code", vec![vec![1., 0., 0.]], "{}");
    index.upsert("prose", vec![vec![0., 0., 1.]], "{}");
    assert!(!index.index.hnsw_ready());
    let (hits, backend) = index.query_auto_with_backend(&[vec![1., 0., 0.]], 1, None, 16).unwrap();
    assert_eq!((hits[0].id.as_str(), backend), ("code", "muvera"));
    index.build_fde_ann(4, 16).unwrap();
    assert!(index.index.hnsw_ready());
    let (hits, backend) = index.query_auto_with_backend(&[vec![1., 0., 0.]], 1, None, 16).unwrap();
    assert_eq!((hits[0].id.as_str(), backend), ("code", "hnsw"));
    index.upsert("more", vec![vec![0., 1., 0.]], "{}");
    assert!(index.index.hnsw_ready());
    let hits = index.query_auto(&[vec![0., 1., 0.]], 1, None, 16).unwrap();
    assert_eq!(hits[0].id, "more");
}

#[test]
fn automatic_queries_are_one_of_the_other_queries() {
    let mut index = baseline();
    assert_eq!(index.upsert_batch(vec![doc("c", 3), doc("d", 7)]), Outcome::Done);
    let query = [vec![1., 2., 0.5], vec![0.3, 0., 1.]];
    let plain = answers(&index.query(&query, 3, None).unwrap());
    assert_eq!(answers(&index.query_auto(&query, 3, None, 16).unwrap()), plain);
    index.build_fde_ann(4, 16).unwrap();
    let (hits, backend) = index.query_auto_with_backend(&query, 3, None, 16).unwrap();
    assert_eq!(backend, "hnsw");
    assert_eq!(answers(&hits), answers(&index.query_with_fde_ann(&query, 3, None, 16).unwrap()));
}

fn mutable_ann_config() -> IndexConfig {
    three_dimensions(3, 3, 8)
}

fn mutable_ann_samples() -> Vec<Vec<f32>> {
    vec![
        vec![1., 0., 0.],
        vec![0.8, 0.2, 0.],
        vec![0., 1., 0.],
        vec![0., 0.8, 0.2],
        vec![0., 0., 1.],
        vec![0.2, 0., 0.8],
    ]
}

fn document(id: &str, vector: Vec<f32>, version: usize) -> UpsertDocument {
    UpsertDocument { id: id.to_string(), vectors: matrix(&[vector]), metadata: format!("{{\"version\":{version}}}") }
}

fn assert_mutable_ann_matches_current_documents(index: &Fixture, expected: &[(&str, usize)], required: &[&str]) {
    assert!(index.index.hnsw_ready());
    assert_eq!(index.stats().fde_ann_nodes, expected.len());
    let query = [vec![1., 0., 0.], vec![0., 1., 0.]];
    let count = expected.len().max(1);
    let versions: HashMap<_, _> = expected.iter().copied().collect();
    let exact = index.exact_fde_candidates(&query, count).unwrap();
    assert_eq!(exact.len(), expected.len());
    let exact_scores: HashMap<_, _> = exact.iter().map(|c| (c.id.as_str(), float(c.score))).collect();
    assert_eq!(exact_scores.keys().copied().collect::<HashSet<_>>(), versions.keys().copied().collect());
    let candidates = index.ann_fde_candidates(&query, count, 32).unwrap();
    let candidate_ids: HashSet<_> = candidates.iter().map(|hit| hit.id.as_str()).collect();
    assert_eq!(candidate_ids.len(), candidates.len(), "duplicate ANN IDs");
    assert!(candidates.len() <= expected.len());
    for candidate in &candidates {
        assert_close(float(candidate.score), exact_scores[candidate.id.as_str()]);
    }
    for id in required {
        assert!(candidate_ids.contains(id), "missing delta document {id}");
    }
    for cap in [1, 2] {
        let capped = index.ann_fde_candidates(&query, cap, 32).unwrap();
        assert!(capped.len() <= cap);
        let ids: HashSet<_> = capped.iter().map(|hit| hit.id.as_str()).collect();
        assert_eq!(ids.len(), capped.len());
        for candidate in &capped {
            assert_close(float(candidate.score), exact_scores[candidate.id.as_str()]);
        }
        assert!(capped.windows(2).all(|pair| {
            let (a, b) = (float(pair[0].score), float(pair[1].score));
            a > b || (a == b && pair[0].id < pair[1].id)
        }));
    }
    let exact_hits = index.query(&query, count, Some(count)).unwrap();
    assert_eq!(exact_hits.len(), expected.len());
    let routes = [
        exact_hits,
        index.query_with_fde_ann(&query, count, Some(count), 32).unwrap(),
        index.query_auto(&query, count, Some(count), 32).unwrap(),
        index.query_with_fde_ann_and_pruning(&query, count, count, count, 32).unwrap(),
    ];
    for hits in routes {
        let ids: HashSet<_> = hits.iter().map(|hit| hit.id.as_str()).collect();
        assert_eq!(ids.len(), hits.len(), "duplicate rescored IDs");
        assert!(hits.len() <= expected.len());
        for id in required {
            assert!(ids.contains(id), "missing rescored delta document {id}");
        }
        for hit in &hits {
            assert_eq!(hit.metadata, format!("{{\"version\":{}}}", versions[hit.id.as_str()]));
            assert_close(float(hit.score), index.score_compressed(&query, &hit.id).unwrap());
            assert_close(float(hit.fde_score.unwrap()), exact_scores[hit.id.as_str()]);
        }
    }
}

#[test]
fn mutable_ann_overwrites_and_duplicate_batches_use_last_committed_values() {
    let mut index = Fixture::open(mutable_ann_config());
    assert_eq!(index.train(&mutable_ann_samples(), 3), Outcome::Done);
    index.upsert_batch(vec![
        document("a", vec![1., 0., 0.], 0),
        document("b", vec![0., 1., 0.], 0),
        document("unchanged", vec![0., 0., 1.], 0),
    ]);
    index.build_fde_ann(8, 32).unwrap();
    index.upsert_batch(vec![
        document("a", vec![0., 1., 0.], 1),
        document("new", vec![1., 0., 0.], 1),
        document("a", vec![0., 0., 1.], 2),
        document("new", vec![0., 1., 0.], 2),
    ]);
    assert_mutable_ann_matches_current_documents(
        &index,
        &[("a", 2), ("b", 0), ("unchanged", 0), ("new", 2)],
        &["a", "new"],
    );
    assert_eq!(index.stats().fde_ann_base_nodes, 3);
    assert_eq!(index.stats().fde_ann_delta_documents, 2);
    assert_eq!(index.stats().fde_ann_tombstones, 1);
    index.upsert_batch(vec![document("a", vec![1., 0., 0.], 3), document("b", vec![0., 0., 1.], 3)]);
    assert_mutable_ann_matches_current_documents(
        &index,
        &[("a", 3), ("b", 3), ("unchanged", 0), ("new", 2)],
        &["a", "b", "new"],
    );
    assert_eq!(index.stats().fde_ann_base_nodes, 3);
    assert_eq!(index.stats().fde_ann_delta_documents, 3);
    assert_eq!(index.stats().fde_ann_tombstones, 2);
    let stats = index.stats();
    assert_eq!(
        index.upsert_batch(vec![document("a", vec![0., 1., 0.], 4), document("invalid", vec![1., 0.], 4)]),
        Outcome::Refused(IndexError::Invalid(Reason::Vectors(3)))
    );
    assert_eq!(index.upsert_batch(vec![]), Outcome::Done);
    assert_eq!(index.stats(), stats);
    assert_mutable_ann_matches_current_documents(
        &index,
        &[("a", 3), ("b", 3), ("unchanged", 0), ("new", 2)],
        &["a", "b", "new"],
    );
}

#[test]
fn mutable_ann_delete_all_reinsert_rebuild_and_reopen() {
    let mut index = Fixture::open(mutable_ann_config());
    assert_eq!(index.train(&mutable_ann_samples(), 3), Outcome::Done);
    index.upsert_batch(vec![
        document("a", vec![1., 0., 0.], 0),
        document("b", vec![0., 1., 0.], 0),
        document("c", vec![0., 0., 1.], 0),
    ]);
    index.build_fde_ann(8, 32).unwrap();
    index.upsert_batch(vec![document("a", vec![0., 1., 0.], 1), document("delta_only", vec![1., 0., 0.], 1)]);
    assert_eq!(index.delete("b"), Ok(true));
    assert_eq!(index.delete("a"), Ok(true));
    assert_eq!(index.delete("delta_only"), Ok(true));
    let stats = index.stats();
    assert_eq!(index.delete("missing"), Ok(false));
    assert_eq!(index.stats(), stats);
    assert_mutable_ann_matches_current_documents(&index, &[("c", 0)], &[]);
    assert_eq!(index.delete("c"), Ok(true));
    assert_mutable_ann_matches_current_documents(&index, &[], &[]);
    assert_eq!(index.stats().fde_ann_base_nodes, 3);
    assert_eq!(index.stats().fde_ann_tombstones, 3);
    assert_eq!(index.stats().fde_ann_delta_documents, 0);
    index.upsert_batch(vec![document("b", vec![1., 0., 0.], 2), document("delta_only", vec![0., 1., 0.], 2)]);
    assert_mutable_ann_matches_current_documents(&index, &[("b", 2), ("delta_only", 2)], &["b", "delta_only"]);
    assert_eq!(index.build_fde_ann(8, 32).unwrap(), 2);
    assert_eq!(index.stats().fde_ann_base_nodes, 2);
    assert_eq!(index.stats().fde_ann_tombstones, 0);
    assert_eq!(index.stats().fde_ann_delta_documents, 0);
    assert_mutable_ann_matches_current_documents(&index, &[("b", 2), ("delta_only", 2)], &[]);
    index.upsert_batch(vec![document("b", vec![0., 0., 1.], 3)]);
    assert_eq!(index.delete("delta_only"), Ok(true));
    assert_mutable_ann_matches_current_documents(&index, &[("b", 3)], &["b"]);

    let mut reopened = index.reopen().unwrap();
    assert!(!reopened.index.hnsw_ready());
    let query = [vec![1., 0., 0.]];
    assert!(reopened.ann_fde_candidates(&query, 1, 16).is_err());
    let exact = reopened.query(&query, 1, None).unwrap();
    let auto = reopened.query_auto(&query, 1, None, 16).unwrap();
    assert_eq!(auto.len(), 1);
    assert_eq!(auto[0].id, "b");
    assert_eq!(auto[0].metadata, "{\"version\":3}");
    assert_eq!(auto[0].score, exact[0].score);
    assert_eq!(reopened.build_fde_ann(8, 32).unwrap(), 1);
    assert_mutable_ann_matches_current_documents(&reopened, &[("b", 3)], &[]);
    assert_eq!(reopened.delete("b"), Ok(true));
    assert_eq!(reopened.build_fde_ann(8, 32).unwrap(), 0);
    assert_eq!(reopened.stats().fde_ann_base_nodes, 0);
    assert_eq!(reopened.stats().fde_ann_tombstones, 0);
    assert_mutable_ann_matches_current_documents(&reopened, &[], &[]);
    reopened.upsert_batch(vec![document("b", vec![1., 0., 0.], 4)]);
    assert_mutable_ann_matches_current_documents(&reopened, &[("b", 4)], &["b"]);
}

fn config() -> IndexConfig {
    three_dimensions(3, 3, 2)
}

fn train(index: &mut Fixture) {
    let samples = [
        vec![1., 0., 0.],
        vec![0., 1., 0.],
        vec![0., 0., 1.],
        vec![0.8, 0.2, 0.],
        vec![0., 0.8, 0.2],
        vec![0.2, 0., 0.8],
    ];
    assert_eq!(index.train(&samples, 3), Outcome::Done);
}

fn doc(id: &str, version: u64) -> UpsertDocument {
    UpsertDocument {
        id: id.to_string(),
        vectors: matrix(&[vec![1., version as f32 + 1., 0.5]]),
        metadata: version.to_string(),
    }
}

fn baseline() -> Fixture {
    let mut index = Fixture::open(config());
    train(&mut index);
    assert_eq!(index.upsert_batch(vec![doc("a", 0), doc("b", 0)]), Outcome::Done);
    index
}

fn named(pairs: &[(&str, &str)]) -> Vec<(String, String)> {
    pairs.iter().map(|(a, b)| (a.to_string(), b.to_string())).collect()
}

/// All that a manifest holds, as bytes.
fn written(manifest: &Manifest) -> Vec<u8> {
    let documents: Vec<String> = manifest
        .documents
        .keys
        .iter()
        .zip(&manifest.documents.values)
        .map(|(id, d)| {
            format!(
                "{id:?} {:?} {:?} {:?} {:?} {:?} {} {}",
                d.centroid_ids,
                d.unique_centroids,
                d.location,
                d.fde_location,
                d.metadata,
                d.tokens,
                d.compressed_bytes
            )
        })
        .collect();
    format!(
        "{} {} {} {:?} {:?} {:?} {documents:?} {:?}",
        manifest.format_version,
        manifest.generation,
        manifest.fde_encoding_version,
        manifest.config,
        manifest.codebook,
        manifest.residual_codebook,
        manifest.segments
    )
    .into_bytes()
}

#[test]
fn every_precommit_failure_preserves_memory_disk_and_ann() {
    for stage in [
        "object_partial_write",
        "fde_partial_write",
        "object_appended",
        "fde_appended",
        "manifest_partial_write",
        "objects_synced",
        "fde_synced",
        "manifest_written",
        "manifest_synced",
    ] {
        let mut index = baseline();
        index.build_fde_ann(4, 16).unwrap();
        let before = index.stats();
        let manifest = written(&index.manifest().unwrap());
        let boundaries = index.boundaries();
        // Append faults happen on the second document: the first was fully staged.
        index.fail_at = Some((stage, if stage.ends_with("appended") { 2 } else { 1 }));
        assert_eq!(index.upsert_batch(vec![doc("a", 1), doc("new", 1)]), Outcome::Failed("fault"), "{stage}");
        assert_eq!(index.stats(), before, "{stage}");
        assert_eq!(index.versions(), named(&[("a", "0"), ("b", "0")]));
        assert_eq!(written(&index.manifest().unwrap()), manifest);
        assert_eq!(index.ann_fde_candidates(&[vec![1., 0., 0.]], 10, 16).unwrap().len(), 2);
        let mut restored = index.reopen().unwrap();
        assert_eq!(restored.stats().generation, before.generation);
        assert_eq!(restored.boundaries(), boundaries);
        assert_eq!(restored.upsert_batch(vec![doc("a", 2), doc("new", 2)]), Outcome::Done);
        assert_eq!(restored.stats().generation, before.generation + 1);
    }
}

#[test]
fn failed_train_and_delete_do_not_change_live_state() {
    let mut index = Fixture::open(config());
    index.fail_at = Some(("manifest_written", 1));
    let samples = [vec![1., 0., 0.], vec![0., 1., 0.], vec![0., 0., 1.]];
    assert_eq!(index.train(&samples, 1), Outcome::Failed("fault"));
    assert!(!index.stats().trained);
    assert_eq!(index.stats().generation, 0);
    train(&mut index);
    assert_eq!(index.upsert_batch(vec![doc("a", 0)]), Outcome::Done);
    index.build_fde_ann(4, 16).unwrap();
    let before = index.stats();
    index.fail_at = Some(("manifest_synced", 1));
    assert_eq!(index.delete("a"), Err(Outcome::Failed("fault")));
    assert_eq!(index.stats(), before);
    assert_eq!(index.versions(), named(&[("a", "0")]));
    assert_eq!(index.delete("missing"), Ok(false));
    assert_eq!(index.upsert_batch(Vec::new()), Outcome::Done);
    assert_eq!(index.stats(), before);
}

#[test]
fn postrename_error_publishes_generation_and_reports_uncertainty() {
    for stage in ["manifest_renamed", "directory_synced"] {
        let mut index = baseline();
        index.build_fde_ann(4, 16).unwrap();
        let before = index.stats().generation;
        index.fail_at = Some((stage, 1));
        assert_eq!(index.upsert_batch(vec![doc("a", 1), doc("c", 1)]), Outcome::Uncertain("fault"));
        assert_eq!(index.stats().generation, before + 1);
        assert!(index.index.hnsw_ready());
        assert_eq!(index.stats().fde_ann_delta_documents, 2);
        assert_eq!(index.stats().fde_ann_tombstones, 1);
        let expected = index.versions();
        let mut ann_versions: Vec<_> = index
            .query_auto(&[vec![1., 0., 0.]], 10, Some(10), 16)
            .unwrap()
            .into_iter()
            .map(|hit| (hit.id, hit.metadata))
            .collect();
        ann_versions.sort();
        assert_eq!(ann_versions, expected);
        let restored = index.reopen().unwrap();
        assert_eq!(restored.versions(), expected);
        assert_eq!(restored.stats().generation, before + 1);
    }
}

#[test]
fn postrename_delete_updates_the_ann_overlay() {
    for stage in ["manifest_renamed", "directory_synced"] {
        let mut index = baseline();
        index.build_fde_ann(4, 16).unwrap();
        assert_eq!(index.upsert_batch(vec![doc("b", 1)]), Outcome::Done);
        for id in ["a", "b"] {
            index.fail_at = Some((stage, 1));
            assert_eq!(index.delete(id), Err(Outcome::Uncertain("fault")));
            assert!(index.index.hnsw_ready());
            let hits = index.query_auto(&[vec![1., 0., 0.]], 10, Some(10), 16).unwrap();
            assert_eq!(hits.len(), index.stats().documents);
            assert!(hits.iter().all(|hit| hit.id != id));
        }
        let restored = index.reopen().unwrap();
        assert!(restored.versions().is_empty());
    }
}

#[test]
fn failed_or_racing_ann_build_preserves_the_current_overlay() {
    let mut index = baseline();
    index.build_fde_ann(4, 16).unwrap();
    let base = Arc::clone(index.graph());
    index.fail_at = Some(("ann_built_before_publish", 1));
    assert_eq!(index.build_fde_ann(4, 16), Err(Outcome::Failed("fault")));
    assert!(Arc::ptr_eq(&base, index.graph()));
    let built = index.index.state.generation;
    let late = index.assemble(4, 16).unwrap();
    assert_eq!(late.len(), 2);
    assert_eq!(index.delete("a"), Ok(true));
    assert_eq!(index.upsert_batch(vec![doc("b", 1), doc("c", 1)]), Outcome::Done);
    let now = index.index.state.generation;
    assert_eq!(
        index.index.build_fde_ann(built, late),
        Err(IndexError::Invalid(Reason::GenerationMoved(built, now)))
    );
    assert!(Reason::GenerationMoved(built, now).message().contains("generation moved"));
    assert!(index.index.hnsw_ready());
    assert!(Arc::ptr_eq(&base, index.graph()));
    assert_eq!(index.stats().fde_ann_base_nodes, 2);
    let hits = index.query_auto(&[vec![1., 0., 0.]], 10, Some(10), 16).unwrap();
    assert_eq!(hits.len(), 2);
    assert!(hits.iter().all(|hit| hit.id != "a" && hit.metadata == "1"));
    index.build_fde_ann(4, 16).unwrap();
    assert_eq!(index.stats().fde_ann_delta_documents, 0);
    assert_eq!(index.stats().fde_ann_tombstones, 0);
}

#[test]
fn fde_encoding_version_survives_legacy_reopen_and_future_writes() {
    let mut index = Fixture::open(config());
    assert_eq!(index.stats().fde_encoding_version, 2);
    index.encoder = encoder(&config(), 1);
    index.index.fde_encoding_version = 1;
    train(&mut index);
    let tokens = vec![vec![1., 2., 0.5]; 3];
    assert_eq!(index.upsert("legacy", tokens.clone(), "0"), Outcome::Done);
    let query = [vec![1., 0., 0.]];
    let expected = index.exact_fde_candidates(&query, 1).unwrap()[0].score;
    let normalized: Vec<_> = matrix(&tokens).iter().map(|v| normalize(v)).collect();
    let legacy = index.encoder.encode_document(&normalized, &dot, &add, &divide, &shrink);
    let current = FdeEncoder::new(3, 2, 2, 2, SEED, (1.0f32 / 2.0f32.sqrt()).to_bits());
    assert_ne!(legacy, current.encode_document(&normalized, &dot, &add, &divide, &shrink));
    let mut restored = index.reopen().unwrap();
    assert_eq!(restored.stats().fde_encoding_version, 1);
    assert_eq!(restored.upsert("new", tokens, "1"), Outcome::Done);
    let hits = restored.exact_fde_candidates(&query, 2).unwrap();
    assert!(hits.iter().all(|hit| hit.score == expected));
    for record in &restored.index.state.documents.values {
        assert_eq!(
            FixedVectorStore::get(restored.fde_bytes(), record.fde_location, legacy.len()).unwrap(),
            &legacy[..]
        );
    }
    let again = restored.reopen().unwrap();
    assert_eq!(again.stats().fde_encoding_version, 1);
    let repeated = again.exact_fde_candidates(&query, 2).unwrap();
    let pairs = |list: &[CandidateHit]| list.iter().map(|c| (c.id.clone(), c.score)).collect::<Vec<_>>();
    assert_eq!(pairs(&repeated), pairs(&hits));
}

#[test]
fn ann_candidates_preserve_raw_inner_product_ranking() {
    let mut index = baseline();
    let dimension = index.encoder.output_dimension();
    let mut a = vec![0.0f32; dimension];
    a[0] = 2.;
    a[1] = 2.;
    let mut b = vec![0.0f32; dimension];
    b[0] = 1.;
    for (document, vector) in [(0, bits(&a)), (1, bits(&b))] {
        let (zeros, bytes, location) = FixedVectorStore::put(index.fde_bytes().len() as u64, &vector).unwrap();
        assert_eq!(zeros, 0);
        index.fde.extend_from_slice(&words(bytes));
        index.index.state.documents.values[document].fde_location = location;
    }
    assert_eq!(index.build_fde_ann(4, 16), Ok(2));
    assert_eq!(index.index.plan_ann_search(1, 16), Ok(Some((1, 16))));
    let hits = index.index.ann_fde_scores(&bits(&b), index.fde_bytes(), 1, 16, &dot).unwrap();
    assert_eq!(hits, vec![(0, 2.0f32.to_bits())]);
    assert_eq!(index.index.state.documents.keys[0], "a");
}

#[test]
fn version_one_manifest_migrates_with_legacy_checksum() {
    let index = baseline();
    let expected = index.versions();
    let mut old = index.manifest().unwrap();
    old.format_version = annex::engine::manifest::current_format_version();
    old.segments = None;
    for record in &mut old.documents.values {
        record.location.checksum = None;
        record.fde_location.checksum = None;
    }
    let mut restored = index.reopen_from(Some((old, false)), &index.objects, &index.fde).unwrap();
    assert_eq!(restored.versions(), expected);
    assert!(restored.index.state.documents.values.iter().all(|r| r.location.checksum.is_some()));
    assert_eq!(restored.upsert_batch(vec![doc("c", 1)]), Outcome::Done);
    assert_eq!(restored.reopen().unwrap().stats().documents, 3);
    let bytes = b"{\"generation\":1}";
    let digest = ManifestEnvelope::seal("{\"generation\":1}".to_string()).checksum_blake3;
    assert_eq!(digest, blake3::hash(bytes).to_hex().to_string());
    let check = annex::engine::manifest::verify_manifest_checksum;
    assert_eq!(check(bytes, None), Ok(()));
    assert_eq!(check(bytes, Some(&digest)), Ok(()));
    assert_eq!(
        check(b"{\"generation\":2}", Some(&digest)),
        Err(IndexError::Invalid(Reason::SidecarMismatch))
    );
}

#[test]
fn buffered_indexes_reopen() {
    let (index, _) =
        MultiVectorIndex::open_with_durability(config(), Durability::Buffered, None, &[], &[], &add).unwrap();
    let mut index = Fixture { index, ..Fixture::open(config()) };
    train(&mut index);
    assert_eq!(index.upsert_batch(vec![doc("a", 0)]), Outcome::Done);
    assert_eq!(index.reopen().unwrap().stats().documents, 1);
}

#[test]
fn checksums_truncation_versions_and_hostile_counts_are_rejected() {
    let index = baseline();
    let manifest = || Some((index.manifest().unwrap(), true));
    assert!(index.reopen_from(manifest(), &index.objects, &index.fde).is_ok());
    let half = index.objects.len() / 2;
    let mut damaged = index.objects.clone();
    damaged[half] ^= 0x40;
    assert_eq!(
        index.reopen_from(manifest(), &damaged, &index.fde).err(),
        Some(IndexError::Io(StorageError::ChecksumMismatch))
    );
    assert_eq!(
        index.reopen_from(manifest(), &index.objects[..half], &index.fde).err(),
        Some(IndexError::Invalid(Reason::ShortSegment))
    );
    let half = index.fde.len() / 2;
    let mut damaged = index.fde.clone();
    damaged[half] ^= 0x40;
    assert_eq!(
        index.reopen_from(manifest(), &index.objects, &damaged).err(),
        Some(IndexError::Io(StorageError::ChecksumMismatch))
    );
    assert_eq!(
        index.reopen_from(manifest(), &index.objects, &index.fde[..half]).err(),
        Some(IndexError::Invalid(Reason::ShortSegment))
    );
    let mut envelope = ManifestEnvelope::seal("{}".to_string());
    assert_eq!(envelope.verify(), Ok(()));
    envelope.manifest = "{} ".to_string();
    assert_eq!(envelope.verify(), Err(IndexError::Invalid(Reason::EnvelopeMismatch)));
    for case in 0..6 {
        let mut m = index.manifest().unwrap();
        match case {
            0 => m.format_version = 999,
            1 => m.documents.values[0].location.offset = u64::MAX,
            2 => m.documents.values[0].centroid_ids = vec![u32::MAX],
            3 => m.codebook[0] = bits(&[1.]),
            5 => m.fde_encoding_version = 999,
            _ => m.documents.values[0].fde_location.checksum = None,
        }
        let error = index.reopen_from(Some((m, true)), &index.objects, &index.fde).err().unwrap();
        let expected = match case {
            0 => IndexError::Invalid(Reason::ManifestVersion),
            1 => IndexError::Io(StorageError::RecordRangeOverflow),
            2 => IndexError::Invalid(Reason::DocumentShape),
            3 => IndexError::Invalid(Reason::Codebook),
            5 => IndexError::Invalid(Reason::FdeVersion(999)),
            _ => IndexError::Io(StorageError::MissingChecksum),
        };
        assert_eq!(error, expected, "case={case}");
    }
    let mut bad = config();
    bad.fde_repetitions = usize::MAX;
    assert_eq!(
        MultiVectorIndex::open(bad, None, &[], &[], &add).err(),
        Some(IndexError::Invalid(Reason::ConfigSize))
    );
    let mut bad = config();
    bad.dimension = usize::MAX;
    assert_eq!(
        MultiVectorIndex::open(bad, None, &[], &[], &add).err(),
        Some(IndexError::Invalid(Reason::ConfigSize))
    );
}

#[test]
fn failed_partial_append_can_retry_without_reopen() {
    let mut index = baseline();
    for stage in ["object_partial_write", "fde_partial_write"] {
        index.fail_at = Some((stage, 1));
        assert_eq!(index.upsert_batch(vec![doc("new", 1)]), Outcome::Failed("fault"));
        assert_eq!(index.upsert_batch(vec![doc("new", 2)]), Outcome::Done);
        assert_eq!(index.versions().last().unwrap().1, "2");
    }
    let expected = index.versions();
    assert_eq!(index.reopen().unwrap().versions(), expected);
}

#[test]
fn generation_never_wraps_and_duplicate_batch_ids_are_last_wins() {
    let mut index = baseline();
    let generation = index.stats().generation;
    assert_eq!(index.upsert_batch(vec![doc("a", 1), doc("a", 2)]), Outcome::Done);
    assert_eq!(index.stats().generation, generation + 1);
    assert_eq!(index.versions()[0].1, "2");
    index.index.state.generation = u64::MAX;
    assert_eq!(
        index.upsert_batch(vec![doc("new", 3)]),
        Outcome::Refused(IndexError::Invalid(Reason::GenerationExhausted))
    );
    assert_eq!(index.stats().generation, u64::MAX);
    assert_eq!(index.stats().documents, 2);
}

#[test]
fn missing_manifest_does_not_destroy_existing_segments() {
    let index = baseline();
    let before = index.objects.clone();
    assert_eq!(
        index.reopen_from(None, &index.objects, &index.fde).err(),
        Some(IndexError::Invalid(Reason::MissingManifest))
    );
    assert_eq!(index.objects, before);
}

fn served() -> Fixture {
    let mut index = Fixture::open(IndexConfig {
        dimension: 2,
        centroids: 2,
        residual_bits: 2,
        probes: 2,
        fde_repetitions: 2,
        fde_ksim: 2,
        fde_projected: 2,
    });
    let samples = [vec![1., 0.], vec![0., 1.], vec![-1., 0.], vec![0., -1.]];
    assert_eq!(index.train(&samples, 2), Outcome::Done);
    assert_eq!(index.upsert("a", vec![vec![1., 0.]], "{}"), Outcome::Done);
    assert_eq!(index.upsert("b", vec![vec![0., 1.]], "{}"), Outcome::Done);
    index
}

fn knobs(candidates: Option<usize>) -> QueryKnobs {
    QueryKnobs { candidates, rerank_candidates: None, probes: None, candidate_backend: None, ef_search: None }
}

fn answers(hits: &[Hit]) -> Vec<(String, u32, Option<u32>, String)> {
    hits.iter().map(|h| (h.id.clone(), h.score, h.fde_score, h.metadata.clone())).collect()
}

#[test]
fn debug_candidates_default_to_exact_without_graph() {
    let index = served();
    let backend = serve::default_candidate_backend();
    assert_eq!(backend, "muvera");
    let expected = index.exact_fde_candidates(&[vec![1., 0.]], 2).unwrap();
    let candidates = |name: &str| {
        serve::candidates(
            &index.index,
            name,
            &matrix(&[vec![1., 0.]]),
            2,
            serve::two_fifty_six(),
            &index.encoder,
            index.segments(),
            &kernels(),
        )
    };
    let actual = candidates(&backend).unwrap_or_else(|e| panic!("candidate request failed: {e:?}"));
    let pairs = |list: &[CandidateHit]| list.iter().map(|c| (c.id.clone(), c.score)).collect::<Vec<_>>();
    assert_eq!(pairs(&actual), pairs(&expected));
    assert_eq!(candidates("hnsw").err(), Some(ServeError::Index(IndexError::Invalid(Reason::AnnMissing))));
    assert_eq!(candidates("exact").err(), Some(ServeError::Plan(PlanError::UnknownBackend)));
}

#[test]
fn omitted_backend_preserves_probe_and_pruning_requests() {
    let mut index = served();
    index.build_fde_ann(4, 16).unwrap();
    for knob in ["probes", "rerank_candidates"] {
        let mut request = knobs(Some(2));
        match knob {
            "probes" => request.probes = Some(2),
            _ => request.rerank_candidates = Some(2),
        }
        let implicit = index.serve(&request, &[vec![1., 0.]], 1).unwrap();
        request.candidate_backend = Some("muvera".to_string());
        let explicit = index.serve(&request, &[vec![1., 0.]], 1).unwrap();
        assert_eq!(answers(&implicit), answers(&explicit));
        assert_eq!(implicit[0].id, "a");
        request.candidate_backend = Some("auto".to_string());
        let error = index.serve(&request, &[vec![1., 0.]], 1).err();
        assert_eq!(error, Some(ServeError::Plan(PlanError::AutoWithKnobs)));
        assert!(error.unwrap().is_bad_request());
    }
}

#[test]
fn omitted_backend_accepts_queries_before_and_after_graph_build() {
    let mut index = served();
    for built in [false, true] {
        if built {
            index.build_fde_ann(4, 16).unwrap();
        }
        let mut request = knobs(Some(2));
        let implicit = index.serve(&request, &[vec![1., 0.]], 1).unwrap();
        request.candidate_backend = Some("auto".to_string());
        let explicit = index.serve(&request, &[vec![1., 0.]], 1).unwrap();
        assert_eq!(answers(&implicit), answers(&explicit));
        assert_eq!(implicit[0].id, "a");
    }
}

#[test]
fn requests_that_ask_for_nothing_known_are_refused() {
    let mut index = served();
    let vectors = [vec![1., 0.]];
    let mut request = knobs(None);
    request.candidate_backend = Some("other".to_string());
    assert_eq!(index.serve(&request, &vectors, 1).err(), Some(ServeError::Plan(PlanError::UnknownBackend)));
    assert_eq!(PlanError::UnknownBackend.message(), "unknown candidate backend: ");
    request.candidate_backend = Some("muvera".to_string());
    request.probes = Some(1);
    request.rerank_candidates = Some(1);
    assert_eq!(index.serve(&request, &vectors, 1).err(), Some(ServeError::Plan(PlanError::RerankWithProbes)));
    request.probes = None;
    request.candidate_backend = Some("hnsw".to_string());
    assert_eq!(
        index.serve(&request, &vectors, 1).err(),
        Some(ServeError::Index(IndexError::Invalid(Reason::AnnMissing)))
    );
    index.build_fde_ann(4, 16).unwrap();
    assert_eq!(ids(&index.serve(&request, &vectors, 1).unwrap()), ["a"]);
    request.rerank_candidates = None;
    assert_eq!(ids(&index.serve(&request, &vectors, 2).unwrap()), ["a", "b"]);
    request.ef_search = Some(0);
    assert_eq!(
        index.serve(&request, &vectors, 1).err(),
        Some(ServeError::Index(IndexError::Invalid(Reason::TopKAndEf)))
    );
    assert!(!ServeError::Index(IndexError::Io(StorageError::Header)).is_bad_request());
}

#[test]
fn scores_are_asked_for_by_document_or_by_id() {
    let index = served();
    let query = matrix(&[vec![1., 0.]]);
    let document = matrix(&[vec![3., 4.]]);
    let a = "a".to_string();
    let score = |document: Option<&Vec<Vec<u32>>>, id: Option<&String>| {
        serve::score(&index.index, &query, document, id, &index.objects, &kernels())
    };
    assert_close(float(score(Some(&document), None).unwrap()), 0.6);
    assert_close(float(score(None, Some(&a)).unwrap()), index.score_compressed(&[vec![1., 0.]], "a").unwrap());
    assert_eq!(score(None, None), Err(ServeError::Plan(PlanError::DocumentOrId)));
    assert_eq!(score(Some(&document), Some(&a)), Err(ServeError::Plan(PlanError::DocumentOrId)));
    assert_eq!(
        index.score_compressed(&[vec![1., 0.]], "none"),
        Err(IndexError::Invalid(Reason::UnknownDocument))
    );
    assert_eq!(
        index.index.score_compressed(&query, "a", &[], &kernels()),
        Err(IndexError::Io(StorageError::EmptyVectorSegment))
    );
    assert_eq!(
        index.index.score_uncompressed(&query, &matrix(&[vec![1., 2., 3.]]), &kernels()),
        Err(IndexError::Invalid(Reason::Vectors(2)))
    );
}

#[test]
fn explanations_compare_two_orders() {
    let hit = |score: f32, fde: f32| Hit {
        id: String::new(),
        score: score.to_bits(),
        fde_score: Some(fde.to_bits()),
        metadata: String::new(),
    };
    let none = serve::explain_hits(&[]);
    assert_eq!((none.top_score, none.second_score, none.fde_top_score), (0, 0, 0));
    assert_eq!((none.agreement.top_rank, none.agreement.close, none.agreement.total), (0, 1, 1));
    let hits = [hit(9., 1.), hit(8., 5.), hit(7., 4.), hit(6., 3.), hit(5., 2.)];
    let all = serve::explain_hits(&hits);
    assert_eq!((float(all.top_score), float(all.second_score), float(all.fde_top_score)), (9., 8., 1.));
    assert_eq!(all.agreement.top_rank, 4);
    assert_eq!(all.agreement.close, 4);
    assert_eq!(all.agreement.total, 5);
}

#[test]
fn a_full_budget_finds_the_best_documents() {
    let mut index = Fixture::open(mutable_ann_config());
    index.train(&mutable_ann_samples(), 3);
    let batch: Vec<_> = (0..12)
        .map(|i| document(&format!("d{i:02}"), vec![(i as f32).cos(), (i as f32).sin(), 0.1 * i as f32], i))
        .collect();
    index.upsert_batch(batch);
    let query = [vec![0.3, -0.7, 0.2], vec![0.9, 0.1, 0.4]];
    let mut best: Vec<_> = index
        .index
        .state
        .documents
        .keys
        .iter()
        .map(|id| (id.clone(), index.score_compressed(&query, id).unwrap()))
        .collect();
    best.sort_by(|a, b| b.1.total_cmp(&a.1).then_with(|| a.0.cmp(&b.0)));
    let hits = index.query(&query, 4, Some(12)).unwrap();
    let found: Vec<_> = hits.iter().map(|h| (h.id.clone(), float(h.score))).collect();
    assert_eq!(found, best[..4]);
    let narrow = index.query(&query, 4, Some(1)).unwrap();
    assert_eq!(narrow.len(), 4);
    let probed = index.query_with_probes(&query, 4, Some(12), 3).unwrap();
    assert_eq!(ids(&probed), ids(&hits));
    let pruned = index.query_with_centroid_pruning(&query, 4, 12, 12).unwrap();
    assert_eq!(ids(&pruned), ids(&hits));
}

#[test]
fn queries_without_results_or_shape_are_refused() {
    let index = baseline();
    let one = [vec![1., 0., 0.]];
    let invalid = |reason| Some(IndexError::Invalid(reason));
    assert_eq!(index.query(&one, 0, None).err(), invalid(Reason::TopK));
    assert_eq!(index.query(&[], 1, None).err(), invalid(Reason::Vectors(3)));
    assert_eq!(index.query(&[vec![f32::NAN, 0., 0.]], 1, None).err(), invalid(Reason::Vectors(3)));
    assert_eq!(index.query_with_probes(&one, 0, None, 1).err(), invalid(Reason::TopK));
    assert_eq!(index.query_with_centroid_pruning(&one, 2, 2, 1).err(), invalid(Reason::Pruning));
    assert_eq!(index.query_with_fde_ann_and_pruning(&one, 1, 1, 1, 0).err(), invalid(Reason::Ef));
    assert_eq!(index.query_with_fde_ann(&one, 1, None, 0).err(), invalid(Reason::TopKAndEf));
    assert_eq!(index.query_with_fde_ann(&one, 1, None, 8).err(), invalid(Reason::AnnMissing));
    assert_eq!(index.exact_fde_candidates(&one, 0).err(), invalid(Reason::CandidateCount));
    assert_eq!(index.ann_fde_candidates(&one, 1, 0).err(), invalid(Reason::CandidateCountAndEf));
    let empty = Fixture::open(config());
    assert!(empty.query(&one, 1, None).unwrap().is_empty());
    assert_eq!(empty.query_with_probes(&one, 1, None, 1).err(), invalid(Reason::Untrained));
    let lost = Segments { objects: &index.objects, fde: &[] };
    assert_eq!(
        index.index.query(&matrix(&one), 1, None, &index.encoder, lost, &kernels()).err(),
        Some(IndexError::Io(StorageError::EmptyFdeSegment))
    );
    let lost = Segments { objects: &[], fde: index.fde_bytes() };
    assert_eq!(
        index.index.query(&matrix(&one), 1, None, &index.encoder, lost, &kernels()).err(),
        Some(IndexError::Io(StorageError::EmptyVectorSegment))
    );
}

#[test]
fn graphs_are_refused_by_parameters_search_and_segment() {
    let mut index = baseline();
    let refused = Outcome::Refused(IndexError::Invalid(Reason::HnswParameters));
    assert_eq!(index.build_fde_ann(0, 16), Err(refused));
    let refused = Outcome::Refused(IndexError::Invalid(Reason::HnswParameters));
    assert_eq!(index.build_fde_ann(4, 0), Err(refused));
    index.build_fde_ann(4, 16).unwrap();
    assert_eq!(index.graph().len(), 2);
    assert_eq!(index.graph().max_level_cap(), GRAPH_LEVELS);
    let failing = index.index.ann_fde_scores(&bits(&[1.]), index.fde_bytes(), 1, 16, &dot);
    let mismatch = DBError::VectorLengthMismatch { expected: index.encoder.output_dimension(), actual: 1 };
    assert_eq!(failing.err(), Some(IndexError::Invalid(Reason::Search(mismatch))));
    let unknown = index.index.rank_points(&[ScoredPoint { id: 2, raw_score: 0, sort_key: 0 }], &[], 1);
    assert_eq!(unknown.err(), Some(IndexError::Invalid(Reason::PointId)));
    let fde = std::mem::take(&mut index.fde);
    let refused = Outcome::Refused(IndexError::Io(StorageError::EmptyFdeSegment));
    assert_eq!(index.build_fde_ann(4, 16), Err(refused));
    index.fde = fde[..fde.len() / 2].to_vec();
    let refused = Outcome::Refused(IndexError::Io(StorageError::OutsideSegment));
    assert_eq!(index.build_fde_ann(4, 16), Err(refused));
}

#[test]
fn staged_documents_are_found_where_their_records_say() {
    let index = baseline();
    let upsert = index.stage(vec![doc("x", 1), doc("y", 2)]).unwrap().unwrap();
    let mut objects = index.objects.clone();
    let mut fde = index.fde_bytes().to_vec();
    for write in &upsert.writes {
        objects.extend_from_slice(&write.objects);
        fde.extend_from_slice(&write.fde);
    }
    for (id, write) in [("x", &upsert.writes[0]), ("y", &upsert.writes[1])] {
        let record = upsert.state.documents.get(id).unwrap();
        assert_eq!(annex::storage::record_bytes(&objects, record.location), Ok(&write.objects[..]));
        assert_eq!(annex::storage::verify_record(&fde, record.fde_location, true), Ok(()));
        assert_eq!(record.fde_location.offset % 4, 0);
        let decoded = CompressedVectorStore::decode(
            &objects,
            record.location,
            &upsert.state.codebook,
            &upsert.state.residual_codebook,
            &add,
        )
        .unwrap();
        assert_eq!(decoded.dimension, 3);
        assert_eq!(decoded.values.len(), 3);
    }
    assert!(matches!(index.stage(Vec::new()), Ok(None)));
    let untrained = Fixture::open(config());
    assert_eq!(
        untrained.stage(vec![doc("x", 1)]).err(),
        Some(IndexError::Invalid(Reason::UntrainedUpsert))
    );
}

#[test]
fn training_is_refused_without_samples_or_with_documents() {
    let mut index = Fixture::open(config());
    let invalid = |reason| Outcome::Refused(IndexError::Invalid(reason));
    assert_eq!(index.train(&[vec![1., 0., 0.]], 1), invalid(Reason::TooFewSamples));
    assert_eq!(index.train(&[vec![1., 0.]], 1), invalid(Reason::Vectors(3)));
    let mut full = baseline();
    let samples = [vec![1., 0., 0.], vec![0., 1., 0.], vec![0., 0., 1.]];
    assert_eq!(full.train(&samples, 1), invalid(Reason::NotEmpty));
    assert_eq!(index.train(&samples, 1), Outcome::Done);
    assert_eq!(index.index.state.codebook, matrix(&samples));
    assert_eq!(index.index.state.residual_codebook, bits(&[0.; 4]));
}

fn deterministic(seed: u64, dim: usize) -> Vec<f32> {
    let mut s = seed.wrapping_mul(0x9E37_79B9_7F4A_7C15);
    (0..dim)
        .map(|_| {
            s = s.wrapping_mul(6364136223846793005).wrapping_add(1442695040888963407);
            (((s >> 33) as u32) as f32 / u32::MAX as f32) * 2.0 - 1.0
        })
        .collect()
}

fn maxsim_reference(query: &[Vec<f32>], document: &[f32], dimension: usize) -> f32 {
    query
        .iter()
        .map(|q| {
            document
                .chunks_exact(dimension)
                .map(|d| q.iter().zip(d).map(|(a, b)| a * b).sum::<f32>())
                .fold(f32::NEG_INFINITY, f32::max)
        })
        .sum()
}

fn assert_maxsim(queries: u64, seed: u64, documents: u64, other: u64, dim: usize, tolerance: f32) {
    let query: Vec<_> = (0..queries).map(|i| deterministic(seed + i, dim)).collect();
    let flat: Vec<f32> = (0..documents).flat_map(|i| deterministic(other + i, dim)).collect();
    let s = maxsim_reference(&query, &flat, dim);
    let d = float(maxsim_flat(&matrix(&query), &bits(&flat), dim, &dot, &greater, &add));
    assert!((s - d).abs() < tolerance, "scalar={s} dispatch={d}");
}

#[test]
fn maxsim_flat_scalar_and_dispatch_agree_on_dim128() {
    assert_maxsim(8, 0x11, 50, 0x2000, 128, 1e-3);
}

#[test]
fn maxsim_flat_scalar_and_dispatch_agree_on_dim384() {
    assert_maxsim(12, 0x33, 30, 0x4000, 384, 1e-3);
}

#[test]
fn maxsim_flat_dispatch_falls_back_when_dim_not_multiple_of_16() {
    assert_maxsim(4, 0x55, 10, 0x6000, 100, 1e-6);
}

#[test]
fn late_interaction_adds_the_best_match_of_each_vector() {
    let query = matrix(&[vec![2., 0.], vec![0., 5.]]);
    let document = matrix(&[vec![3., 4.], vec![1., 0.]]);
    assert_close(float(maxsim(&query, &document, 2, &kernels())), 1.0 + 0.8);
    assert_eq!(maxsim(&[], &document, 2, &kernels()), 0);
    assert_eq!(maxsim(&query, &[], 2, &kernels()), 0);
    let flat = bits(&[3., 4., 1., 0., 9.]);
    assert_eq!(float(maxsim_flat(&query, &flat, 2, &dot, &greater, &add)), 6. + 20.);
    assert_eq!(float(maxsim_flat(&query, &[], 2, &dot, &greater, &add)), f32::NEG_INFINITY);
}

fn reference_compress(vectors: &[Vec<f32>], centers: &[Vec<f32>], residuals: &[f32]) -> Vec<Vec<f32>> {
    vectors
        .iter()
        .map(|v| {
            let norm = v.iter().map(|x| x * x).sum::<f32>().sqrt();
            let v: Vec<f32> = v.iter().map(|x| if norm == 0. { 0. } else { x / norm }).collect();
            let center = centers
                .iter()
                .max_by(|a, b| {
                    let score = |c: &&Vec<f32>| v.iter().zip(c.iter()).map(|(x, y)| x * y).sum::<f32>();
                    score(a).total_cmp(&score(b))
                })
                .unwrap();
            v.iter()
                .zip(center)
                .map(|(&x, &c)| {
                    let r = residuals
                        .iter()
                        .min_by(|a, b| (x - c - **a).abs().total_cmp(&(x - c - **b).abs()))
                        .unwrap();
                    c + r
                })
                .collect()
        })
        .collect()
}

fn reference_score(query: &[Vec<f32>], document: &[Vec<f32>]) -> f32 {
    query
        .iter()
        .map(|q| {
            let norm = q.iter().map(|x| x * x).sum::<f32>().sqrt();
            document
                .iter()
                .map(|d| q.iter().zip(d).map(|(x, y)| x / norm * y).sum::<f32>())
                .fold(f32::NEG_INFINITY, f32::max)
        })
        .sum()
}

fn random(state: &mut u64) -> u64 {
    *state ^= *state << 13;
    *state ^= *state >> 7;
    *state ^= *state << 17;
    *state
}

fn random_vector(state: &mut u64, below: u64) -> Vec<f32> {
    (0..3).map(|_| (1 + random(state) % below) as f32).collect()
}

#[test]
fn randomized_mutation_restart_state_machine_matches_scalar_oracle() {
    for seed in 1..=8u64 {
        let mut index = Fixture::open(config());
        train(&mut index);
        let centers: Vec<Vec<f32>> =
            index.index.state.codebook.iter().map(|row| row.iter().map(|b| float(*b)).collect()).collect();
        let residuals: Vec<f32> = index.index.state.residual_codebook.iter().map(|b| float(*b)).collect();
        let mut model: HashMap<String, (Vec<Vec<f32>>, String)> = HashMap::new();
        let mut generation = 1;
        let mut rng = seed;
        for step in 0..160 {
            let id = format!("doc-{}", random(&mut rng) % 12);
            match random(&mut rng) % 7 {
                0..=2 => {
                    let mut batch = Vec::new();
                    for _ in 0..1 + random(&mut rng) % 4 {
                        let id = format!("doc-{}", random(&mut rng) % 12);
                        let vectors = vec![random_vector(&mut rng, 31), random_vector(&mut rng, 31)];
                        let metadata = format!("{{\"step\":{step},\"seed\":{seed}}}");
                        let stored = reference_compress(&vectors, &centers, &residuals);
                        model.insert(id.clone(), (stored, metadata.clone()));
                        batch.push(UpsertDocument { id, vectors: matrix(&vectors), metadata });
                    }
                    assert_eq!(index.upsert_batch(batch), Outcome::Done);
                    generation += 1;
                }
                3 => {
                    let existed = model.remove(&id).is_some();
                    assert_eq!(index.delete(&id), Ok(existed));
                    generation += u64::from(existed);
                }
                4 => {
                    index = index.reopen().unwrap();
                }
                5 => {
                    let before = index.stats();
                    let bad = UpsertDocument {
                        id,
                        vectors: matrix(&[vec![f32::NAN; 3]]),
                        metadata: "null".to_string(),
                    };
                    assert_eq!(
                        index.upsert_batch(vec![doc("valid", 0), bad]),
                        Outcome::Refused(IndexError::Invalid(Reason::Vectors(3)))
                    );
                    assert_eq!(index.stats(), before);
                }
                _ => {
                    index.build_fde_ann(4, 32).unwrap();
                }
            }
            assert_eq!(index.stats().generation, generation, "seed={seed} step={step}");
            assert_eq!(index.stats().documents, model.len());
            let query = vec![random_vector(&mut rng, 17)];
            let actual = index.query(&query, 20, Some(20)).unwrap();
            assert_eq!(actual.len(), model.len());
            let found: HashSet<String> = actual.iter().map(|h| h.id.clone()).collect();
            assert_eq!(found, model.keys().cloned().collect());
            for hit in &actual {
                let (vectors, metadata) = &model[&hit.id];
                assert!(
                    (float(hit.score) - reference_score(&query, vectors)).abs() < 1e-5,
                    "seed={seed} step={step} id={}",
                    hit.id
                );
                assert_eq!(&hit.metadata, metadata);
            }
            for pair in actual.windows(2) {
                assert!(float(pair[0].score) >= float(pair[1].score));
            }
            if index.stats().fde_ann_nodes > 0 {
                let ann = index.query_with_fde_ann(&query, 20, Some(20), 64).unwrap();
                assert!(!ann.is_empty());
                assert_eq!(ann.iter().map(|h| &h.id).collect::<HashSet<_>>().len(), ann.len());
                for hit in ann {
                    let (vectors, metadata) = &model[&hit.id];
                    assert_eq!(&hit.metadata, metadata);
                    assert!((float(hit.score) - reference_score(&query, vectors)).abs() < 1e-5);
                }
            }
        }
    }
}

#[test]
fn crash_at_every_commit_boundary_recovers_one_whole_generation() {
    for (stage, published) in [
        ("object_partial_write", false),
        ("fde_partial_write", false),
        ("object_appended", false),
        ("fde_appended", false),
        ("manifest_partial_write", false),
        ("objects_synced", false),
        ("fde_synced", false),
        ("manifest_written", false),
        ("manifest_synced", false),
        ("manifest_renamed", true),
        ("directory_synced", true),
    ] {
        let mut index = baseline();
        let generation = index.stats().generation;
        index.fail_at = Some((stage, 1));
        let batch = vec![doc("a", 1), doc("b", 1), doc("c", 1)];
        assert_ne!(index.upsert_batch(batch), Outcome::Done);
        let mut restored = index.reopen().unwrap();
        let expected = if published {
            named(&[("a", "1"), ("b", "1"), ("c", "1")])
        } else {
            named(&[("a", "0"), ("b", "0")])
        };
        assert_eq!(restored.versions(), expected, "{stage}");
        assert_eq!(restored.stats().generation, generation + u64::from(published));
        assert_eq!(restored.upsert_batch(vec![doc("after", 2)]), Outcome::Done);
        assert_eq!(restored.reopen().unwrap().stats().documents, expected.len() + 1);
    }
}

#[test]
fn manifest_checksum_rejects_corruption() {
    let envelope = ManifestEnvelope::seal("{\"generation\":7}".to_string());
    assert_eq!(envelope.verify(), Ok(()));
    let damaged = ManifestEnvelope {
        format_version: envelope.format_version,
        checksum_blake3: envelope.checksum_blake3.clone(),
        manifest: "{\"generation\":8}".to_string(),
    };
    assert_eq!(damaged.verify(), Err(IndexError::Invalid(Reason::EnvelopeMismatch)));
    let older = ManifestEnvelope {
        format_version: 1,
        checksum_blake3: envelope.checksum_blake3,
        manifest: envelope.manifest,
    };
    assert_eq!(older.verify(), Err(IndexError::Invalid(Reason::EnvelopeMismatch)));
}

#[test]
fn graph_scores_are_distinct_current_and_ranked() {
    let mut index = baseline();
    assert_eq!(index.upsert_batch(vec![doc("c", 2), doc("d", 3)]), Outcome::Done);
    index.build_fde_ann(4, 16).unwrap();
    assert_eq!(index.upsert_batch(vec![doc("b", 5), doc("e", 6)]), Outcome::Done);
    assert_eq!(index.delete("c"), Ok(true));
    let vectors = [vec![1., 0., 0.]];
    let unit: Vec<_> = matrix(&vectors).iter().map(|v| normalize(v)).collect();
    let query = index.encoder.encode_query(&unit, &dot, &add);
    let scores = index.index.ann_fde_scores(&query, index.fde_bytes(), 10, 16, &dot).unwrap();
    let names: HashSet<&str> =
        scores.iter().map(|(d, _)| index.index.state.documents.keys[*d as usize].as_str()).collect();
    assert_eq!(names, HashSet::from(["a", "b", "d", "e"]));
    assert_eq!(scores.len(), 4);
    assert!(scores.windows(2).all(|w| float(w[0].1) > float(w[1].1) || (w[0].1 == w[1].1 && w[0].0 < w[1].0)));
    let exact = index.exact_fde_candidates(&vectors, 10).unwrap();
    for (document, score) in &scores {
        let id = &index.index.state.documents.keys[*document as usize];
        assert_eq!(exact.iter().find(|c| &c.id == id).unwrap().score, *score);
    }
    assert_eq!(index.index.ann_fde_scores(&query, index.fde_bytes(), 2, 16, &dot).unwrap(), scores[..2]);
    let reopened = index.reopen().unwrap();
    let missing = reopened.index.ann_fde_scores(&query, reopened.fde_bytes(), 2, 16, &dot);
    assert_eq!(missing, Err(IndexError::Invalid(Reason::AnnMissing)));
}
