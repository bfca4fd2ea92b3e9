//! The graph over the encodings of documents.

use vstd::prelude::*;
use crate::arith;
use crate::config::{IndexConfig, IndexError, Reason};
use crate::engine::answer;
use crate::engine::index::MultiVectorIndex;
use crate::engine::state;
use crate::error::StorageError;
use crate::hnsw::batch;
use crate::hnsw::batch::BatchEntry;
use crate::hnsw::graph;
use crate::hnsw::graph::{HNSWIndex, NO_EP};
use crate::hnsw::rcm;
use crate::hnsw::reorder;
use crate::hnsw::select::Selection;
use crate::hnsw::types::DistanceMetric;
use crate::score::Score;
use crate::storage::FixedVectorStore;

verus! {

/// How many documents enter the graph at once.
pub const GRAPH_BATCH: usize = 4096;

/// The highest level of a graph over encodings, where no other is asked for.
pub const GRAPH_LEVELS: usize = 16;

/// What a graph is made with besides its documents.
pub struct GraphSettings {
    /// How many neighbours a node has.
    pub m: usize,
    /// The size of the candidate list while it is built.
    pub ef_construct: usize,
    /// The highest level that is asked for.
    pub max_level_cap: usize,
    /// The bit pattern of the number that scales levels.
    pub level_scale: u64,
    pub exact_fallback_enabled: bool,
    pub exact_fallback_threshold: usize,
}

impl GraphSettings {
    /// The highest level that a node can have.
    pub open spec fn level_cap(self) -> usize {
        if self.max_level_cap < graph::MAX_STORED_LEVEL {
            self.max_level_cap
        } else {
            graph::MAX_STORED_LEVEL
        }
    }
}

/// Whether the first `n` documents are the points of a graph: each has a node that
/// is not deleted, with its encoding.
pub open spec fn holds_documents(index: MultiVectorIndex, fde: Seq<u8>, graph: HNSWIndex, n: int) -> bool {
    &&& graph.nodes() == n
    &&& forall|i: int|
        0 <= i < n ==> {
            &&& (#[trigger] graph.node_of(i as u64)) is Some
            &&& answer::is_encoding(
                fde,
                index.state.documents.values@[i].fde_location,
                index.config.encoding_dimension(),
                graph.vectors.vectors()[graph.node_of(i as u64)->0],
            )
            &&& !graph.deleted@[graph.node_of(i as u64)->0]
        }
}

/// Whether a graph is as a new one is made: without nodes, with these settings.
pub open spec fn is_fresh(graph: HNSWIndex, settings: GraphSettings, dimension: nat) -> bool {
    &&& graph.wf()
    &&& graph.nodes() == 0
    &&& graph.entry() is None
    &&& graph.top_level() == 0
    &&& graph.metric == DistanceMetric::Dot
    &&& graph.m == settings.m
    &&& graph.m0 == settings.m * 2
    &&& graph.stored_cap_l0 == settings.m * 2
    &&& graph.ef == settings.ef_construct
    &&& graph.ef_construct == settings.ef_construct
    &&& graph.max_level_cap == settings.level_cap()
    &&& graph.layers@.len() == settings.level_cap() + 1
    &&& graph.level_scale == settings.level_scale
    &&& graph.dim == dimension
    &&& graph.deleted_count == 0
    &&& graph.quantized@.len() == 0
    &&& graph.quant_min@.len() == 0
    &&& graph.quant_scale@.len() == 0
    &&& graph.exact_fallback_enabled == settings.exact_fallback_enabled
    &&& graph.exact_fallback_threshold == settings.exact_fallback_threshold
}

/// Whether the entries are the documents between two positions, each with its
/// encoding and the level drawn for it.
pub open spec fn are_entries(
    index: MultiVectorIndex,
    fde: Seq<u8>,
    levels: Seq<usize>,
    from: int,
    to: int,
    entries: Seq<BatchEntry>,
) -> bool {
    &&& entries.len() == to - from
    &&& forall|k: int|
        0 <= k < entries.len() ==> {
            &&& (#[trigger] entries[k]).id == from + k
            &&& entries[k].level == levels[from + k]
            &&& answer::is_encoding(
                fde,
                index.state.documents.values@[from + k].fde_location,
                index.config.encoding_dimension(),
                entries[k].vector@,
            )
        }
}

/// The number of batches in which documents enter a graph.
pub open spec fn batch_count(total: int) -> int {
    (total + GRAPH_BATCH - 1) / GRAPH_BATCH as int
}

/// Where a batch ends.
pub open spec fn batch_end(total: int, batches: int) -> int {
    if batches * GRAPH_BATCH < total {
        batches * GRAPH_BATCH
    } else {
        total
    }
}

/// Whether inserting entries as one batch may lead from one graph to another.
pub open spec fn may_take<F, S>(
    before: HNSWIndex,
    after: HNSWIndex,
    entries: Seq<BatchEntry>,
    score: F,
    allowance: S,
    floor: int,
    capping: bool,
) -> bool where
    F: Fn(&[Score], &[Score]) -> Score,
    S: Fn(Score, usize) -> Score,
 {
    exists|all: HNSWIndex| #[trigger]
        batch::allocated(before, all, entries) && batch::batch_inserted(
            before,
            all,
            after,
            score,
            allowance,
            floor,
            capping,
        )
}

/// Whether a graph may have grown so from a new one by the first batches.
pub open spec fn may_grow<F, S>(
    index: MultiVectorIndex,
    fde: Seq<u8>,
    settings: GraphSettings,
    levels: Seq<usize>,
    score: F,
    allowance: S,
    floor: int,
    capping: bool,
    graph: HNSWIndex,
    batches: nat,
) -> bool where
    F: Fn(&[Score], &[Score]) -> Score,
    S: Fn(Score, usize) -> Score,

    decreases batches,
{
    if batches == 0 {
        is_fresh(graph, settings, index.config.encoding_dimension())
    } else {
        let total = index.state.documents.ids().len() as int;
        exists|before: HNSWIndex, entries: Seq<BatchEntry>| #[trigger]
            may_take(before, graph, entries, score, allowance, floor, capping) && are_entries(
                index,
                fde,
                levels,
                batch_end(total, batches - 1),
                batch_end(total, batches as int),
                entries,
            ) && may_grow(
                index,
                fde,
                settings,
                levels,
                score,
                allowance,
                floor,
                capping,
                before,
                (batches - 1) as nat,
            )
    }
}

/// Whether a graph may have been built so: grown by all batches, and renumbered
/// where it has nodes.
pub open spec fn may_build<F, S>(
    index: MultiVectorIndex,
    fde: Seq<u8>,
    settings: GraphSettings,
    levels: Seq<usize>,
    score: F,
    allowance: S,
    floor: int,
    capping: bool,
    graph: HNSWIndex,
) -> bool where
    F: Fn(&[Score], &[Score]) -> Score,
    S: Fn(Score, usize) -> Score,
 {
    let total = index.state.documents.ids().len() as int;
    exists|grown: HNSWIndex|
        {
            &&& #[trigger] may_grow(
                index,
                fde,
                settings,
                levels,
                score,
                allowance,
                floor,
                capping,
                grown,
                batch_count(total) as nat,
            )
            &&& if total > 0 {
                reorder::permuted(grown, graph, rcm::rcm_order(grown.links()[0], grown.nodes()))
            } else {
                graph == grown
            }
        }
}

/// Whether nodes stand for the first documents in the order of their ids.
spec fn in_order(index: MultiVectorIndex, fde: Seq<u8>, graph: HNSWIndex, n: int) -> bool {
    &&& graph.nodes() == n
    &&& forall|i: int|
        0 <= i < n ==> (#[trigger] graph.ids@[i]) == i && !graph.deleted@[i] && answer::is_encoding(
            fde,
            index.state.documents.values@[i].fde_location,
            index.config.encoding_dimension(),
            graph.vectors.vectors()[i],
        )
}

/// An encoding has at least one number.
pub proof fn lemma_dimension_positive(c: IndexConfig)
    requires
        c.valid(),
    ensures
        c.encoding_dimension() > 0,
{
    vstd::arithmetic::power2::lemma_pow2_pos(c.fde_ksim as nat);
    let a = c.buckets();
    let b = c.fde_projected as nat;
    let r = c.fde_repetitions as nat;
    assert(a * b * r > 0) by (nonlinear_arith)
        requires
            a > 0,
            b > 0,
            r > 0,
    ;
}

proof fn lemma_in_order(index: MultiVectorIndex, fde: Seq<u8>, graph: HNSWIndex, n: int)
    requires
        graph.wf(),
        in_order(index, fde, graph, n),
        n <= u64::MAX,
    ensures
        holds_documents(index, fde, graph, n),
        forall|node: int| 0 <= node < graph.ids@.len() ==> (#[trigger] graph.ids@[node]) < n,
{
    assert forall|i: int| 0 <= i < n implies (#[trigger] graph.node_of(i as u64)) == Some(i) by {
        assert(graph.ids@[i] == i as u64);
    }
}

proof fn lemma_reordered(index: MultiVectorIndex, fde: Seq<u8>, before: HNSWIndex, after: HNSWIndex, order: Seq<usize>, n: int)
    requires
        before.wf(),
        after.wf(),
        rcm::is_order(order, before.nodes()),
        reorder::permuted(before, after, order),
        holds_documents(index, fde, before, n),
        forall|node: int| 0 <= node < before.ids@.len() ==> (#[trigger] before.ids@[node]) < n,
    ensures
        holds_documents(index, fde, after, n),
        forall|node: int| 0 <= node < after.ids@.len() ==> (#[trigger] after.ids@[node]) < n,
{
    assert forall|node: int| 0 <= node < after.ids@.len() implies (#[trigger] after.ids@[node]) < n by {
        assert(after.ids@[node] == before.ids@[order[node] as int]);
    }
    assert forall|i: int| 0 <= i < n implies {
        &&& (#[trigger] after.node_of(i as u64)) is Some
        &&& answer::is_encoding(
            fde,
            index.state.documents.values@[i].fde_location,
            index.config.encoding_dimension(),
            after.vectors.vectors()[after.node_of(i as u64)->0],
        )
        &&& !after.deleted@[after.node_of(i as u64)->0]
    } by {
        assert(before.node_of(i as u64) is Some);
        reorder::law_reordering_keeps_the_points(before, after, order, i as u64);
    }
}

impl MultiVectorIndex {
    /// The next documents as points of a graph, with the levels drawn for them.
    fn graph_entries(&self, fde: &[u8], from: usize, to: usize, levels: &[usize]) -> (r: Result<Vec<BatchEntry>, StorageError>)
        requires
            self.ok(),
            from <= to <= self.state.documents.ids().len(),
            levels@.len() == self.state.documents.ids().len(),
        ensures
            match r {
                Ok(entries) => are_entries(*self, fde@, levels@, from as int, to as int, entries@),
                Err(e) => exists|i: int|
                    from <= i < to && answer::is_refused(
                        fde@,
                        (#[trigger] self.state.documents.values@[i]).fde_location,
                        self.config.encoding_dimension(),
                        e,
                    ),
            },
    {
        let dimension: usize = self.config.output_dimension();
        let mut entries: Vec<BatchEntry> = Vec::with_capacity(to - from);
        let mut i: usize = from;
        while i < to
            invariant
                self.ok(),
                dimension == self.config.encoding_dimension(),
                from <= i <= to <= self.state.documents.ids().len(),
                levels@.len() == self.state.documents.ids().len(),
                are_entries(*self, fde@, levels@, from as int, i as int, entries@),
            decreases to - i,
        {
            match FixedVectorStore::get(fde, self.state.documents.values[i].fde_location, dimension) {
                Ok(words) => {
                    let vector: Vec<Score> = vstd::slice::slice_to_vec(words);
                    assert(vector@ =~= words@);
                    entries.push(BatchEntry { id: i as u64, vector, level: levels[i] });
                },
                Err(e) => {
                    assert(answer::is_refused(
                        fde@,
                        self.state.documents.values@[i as int].fde_location,
                        self.config.encoding_dimension(),
                        e,
                    ));
                    return Err(e);
                },
            }
            i += 1;
        }
        Ok(entries)
    }

    /// Builds the graph over the encodings of all documents, with the levels drawn
    /// for them: in batches, so that few vectors are held twice, and last with its
    /// nodes renumbered. The point of a document is its position in the order of
    /// ids.
    pub fn build_graph<F, S>(
        &self,
        fde: &[u8],
        settings: &GraphSettings,
        levels: &[usize],
        score: &F,
        selection: &Selection<'_, S>,
        capping: bool,
    ) -> (r: Result<HNSWIndex, IndexError>) where
        F: Fn(&[Score], &[Score]) -> Score,
        S: Fn(Score, usize) -> Score,

        requires
            self.ok(),
            arith::is_measure(*score),
            arith::is_scaling(*selection.allowance),
            settings.m * 2 < usize::MAX,
            graph::CHUNK_CAP * self.config.encoding_dimension() <= usize::MAX,
            self.state.documents.ids().len() <= NO_EP,
            levels@.len() == self.state.documents.ids().len(),
            forall|i: int| 0 <= i < levels@.len() ==> (#[trigger] levels@[i]) <= settings.level_cap(),
        ensures
            settings.m == 0 || settings.ef_construct == 0 ==> r == Err::<HNSWIndex, IndexError>(
                IndexError::Invalid(Reason::HnswParameters),
            ),
            settings.m > 0 && settings.ef_construct > 0 ==> match r {
                Ok(graph) => {
                    &&& graph.wf()
                    &&& may_build(
                        *self,
                        fde@,
                        *settings,
                        levels@,
                        *score,
                        *selection.allowance,
                        selection.floor as int,
                        capping,
                        graph,
                    )
                    &&& graph.metric == DistanceMetric::Dot
                    &&& graph.m == settings.m
                    &&& graph.max_level_cap == settings.level_cap()
                    &&& graph.dim == self.config.encoding_dimension()
                    &&& holds_documents(*self, fde@, graph, self.state.documents.ids().len() as int)
                    &&& state::spans(graph, self.state.documents.ids().len())
                },
                Err(e) => {
                    &&& self.state.documents.ids().len() > 0
                    &&& e is Io
                    &&& if fde@.len() == 0 {
                        e->Io_0 == StorageError::EmptyFdeSegment
                    } else {
                        exists|i: int|
                            0 <= i < self.state.documents.values@.len() && answer::is_refused(
                                fde@,
                                (#[trigger] self.state.documents.values@[i]).fde_location,
                                self.config.encoding_dimension(),
                                e->Io_0,
                            )
                    }
                },
            },
    {
        if let Err(e) = Self::check_build(settings.m, settings.ef_construct) {
            return Err(e);
        }
        let total: usize = self.state.documents.len();
        if total > 0 {
            if let Err(e) = FixedVectorStore::map(fde.len() as u64) {
                return Err(IndexError::Io(e));
            }
        }
        let dimension: usize = self.config.output_dimension();
        proof {
            lemma_dimension_positive(self.config);
        }
        let mut graph: HNSWIndex = HNSWIndex::new(
            DistanceMetric::Dot,
            settings.m,
            settings.ef_construct,
            settings.max_level_cap,
            dimension,
            settings.level_scale,
            settings.exact_fallback_enabled,
            settings.exact_fallback_threshold,
        );
        let ghost floor = selection.floor as int;
        let ghost mut batches: nat = 0;
        let mut done: usize = 0;
        while done < total
            invariant
                floor == selection.floor,
                done == batch_end(total as int, batches as int),
                batches > 0 ==> (batches - 1) * GRAPH_BATCH < total,
                may_grow(
                    *self,
                    fde@,
                    *settings,
                    levels@,
                    *score,
                    *selection.allowance,
                    floor,
                    capping,
                    graph,
                    batches,
                ),
                self.ok(),
                arith::is_measure(*score),
                arith::is_scaling(*selection.allowance),
                total == self.state.documents.ids().len(),
                total <= NO_EP,
                fde@.len() > 0 || total == 0,
                dimension == self.config.encoding_dimension(),
                settings.m > 0,
                settings.ef_construct > 0,
                settings.m * 2 < usize::MAX,
                levels@.len() == total,
                forall|i: int| 0 <= i < levels@.len() ==> (#[trigger] levels@[i]) <= settings.level_cap(),
                done <= total,
                graph.wf(),
                graph.metric == DistanceMetric::Dot,
                graph.m == settings.m,
                graph.stored_cap_l0 == settings.m * 2,
                graph.max_level_cap == settings.level_cap(),
                graph.dim == dimension,
                in_order(*self, fde@, graph, done as int),
            decreases total - done,
        {
            let to: usize = if total - done > GRAPH_BATCH {
                done + GRAPH_BATCH
            } else {
                total
            };
            let entries: Vec<BatchEntry> = match self.graph_entries(fde, done, to, levels) {
                Ok(entries) => entries,
                Err(e) => {
                    return Err(IndexError::Io(e));
                },
            };
            let ghost before = graph;
            proof {
                assert forall|i: int| 0 <= i < entries@.len() implies !before.ids@.contains((#[trigger] entries@[i]).id) by {
                    if before.ids@.contains(entries@[i].id) {
                        let k = choose|k: int| 0 <= k < before.ids@.len() && before.ids@[k] == entries@[i].id;
                        assert(before.ids@[k] == k);
                    }
                }
                assert(batch::ids_of(entries@).no_duplicates());
                assert forall|i: int| 0 <= i < entries@.len() implies (#[trigger] entries@[i]).level <= before.max_level_cap by {
                    assert(levels@[done + i] <= settings.level_cap());
                }
            }
            match graph.par_insert_batch(score, selection, capping, entries.as_slice(), None) {
                Ok(_) => {},
                Err(e) => {
                    proof {
                        let k = choose|k: int|
                            #![trigger entries@.take(k)]
                            0 <= k < entries@.len() && entries@[k].vector@.len() != before.dim;
                        assert(entries@[k].vector@.len() == dimension);
                    }
                    return Err(IndexError::Invalid(Reason::Build(e)));
                },
            }
            proof {
                lemma_batch_in_order(
                    *self,
                    fde@,
                    before,
                    graph,
                    levels@,
                    entries@,
                    done as int,
                    *score,
                    *selection.allowance,
                    selection.floor as int,
                    capping,
                );
            }
            done = to;
            proof {
                batches = batches + 1;
                assert(may_take(before, graph, entries@, *score, *selection.allowance, floor, capping));
            }
        }
        let ghost grown = graph;
        proof {
            assert(batches == batch_count(total as int));
            lemma_in_order(*self, fde@, graph, total as int);
        }
        if total > 0 {
            let ghost before = graph;
            graph.reorder_rcm();
            proof {
                lemma_reordered(
                    *self,
                    fde@,
                    before,
                    graph,
                    rcm::rcm_order(before.links()[0], before.nodes()),
                    total as int,
                );
            }
        }
        assert(may_build(
            *self,
            fde@,
            *settings,
            levels@,
            *score,
            *selection.allowance,
            floor,
            capping,
            graph,
        )) by {
            assert(may_grow(
                *self,
                fde@,
                *settings,
                levels@,
                *score,
                *selection.allowance,
                floor,
                capping,
                grown,
                batch_count(total as int) as nat,
            ));
        }
        Ok(graph)
    }
}

proof fn lemma_batch_in_order<F, S>(
    index: MultiVectorIndex,
    fde: Seq<u8>,
    before: HNSWIndex,
    after: HNSWIndex,
    levels: Seq<usize>,
    entries: Seq<BatchEntry>,
    done: int,
    score: F,
    allowance: S,
    floor: int,
    capping: bool,
) where
    F: Fn(&[Score], &[Score]) -> Score,
    S: Fn(Score, usize) -> Score,

    requires
        before.wf(),
        after.wf(),
        in_order(index, fde, before, done),
        done + entries.len() <= u64::MAX,
        batch::ids_of(entries).no_duplicates(),
        forall|i: int| 0 <= i < entries.len() ==> !before.ids@.contains((#[trigger] entries[i]).id),
        are_entries(index, fde, levels, done, done + entries.len(), entries),
        may_take(before, after, entries, score, allowance, floor, capping),
    ensures
        in_order(index, fde, after, done + entries.len()),
        after.metric == before.metric,
        after.m == before.m,
        after.stored_cap_l0 == before.stored_cap_l0,
        after.max_level_cap == before.max_level_cap,
        after.dim == before.dim,
{
    let all = choose|all: HNSWIndex| #[trigger]
        batch::allocated(before, all, entries) && batch::batch_inserted(
            before,
            all,
            after,
            score,
            allowance,
            floor,
            capping,
        );
    batch::law_batch_adds_its_points(before, all, entries);
    assert(after.ids == all.ids && after.vectors == all.vectors && after.deleted == all.deleted);
    assert forall|i: int| 0 <= i < done + entries.len() implies (#[trigger] after.ids@[i]) == i && !after.deleted@[i]
        && answer::is_encoding(
        fde,
        index.state.documents.values@[i].fde_location,
        index.config.encoding_dimension(),
        after.vectors.vectors()[i],
    ) by {
        if i < done {
            assert(before.ids@[i] == i);
        } else {
            let k = i - done;
            assert(entries[k].id == done + k);
            assert(batch::ids_of(entries)[k] == entries[k].id);
            assert(batch::vectors_of(entries)[k] == entries[k].vector@);
        }
    }
}

} // verus!
