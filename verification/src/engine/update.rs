//! Changes of an index. A change is staged as a whole new state, written down by
//! the caller, and then takes the place of the old state, or does not.

use std::sync::Arc;
use vstd::prelude::*;
use crate::arith;
use crate::commit::CommitError;
use crate::config;
use crate::config::{IndexError, Reason};
use crate::engine::index::MultiVectorIndex;
use crate::engine::state;
use crate::engine::state::{AnnView, DocumentRecord, FdeAnn, RecordView, State, StateView};
use crate::hnsw::graph::HNSWIndex;
use crate::ids;
use crate::ids::{IdMap, IdSet};
use crate::score::Score;
use crate::storage::ObjectLocation;

verus! {

/// A document whose vectors and encoding stand in the segments already.
pub struct StagedDocument {
    pub id: String,
    /// The nearest centroid of each vector.
    pub centroid_ids: Vec<u32>,
    pub location: ObjectLocation,
    pub fde_location: ObjectLocation,
    /// The caller's metadata, as JSON text.
    pub metadata: String,
}

impl StagedDocument {
    /// The record that the document becomes.
    pub open spec fn record(&self) -> RecordView {
        RecordView {
            centroid_ids: self.centroid_ids@,
            unique_centroids: choose|unique: Seq<u32>| state::is_sorted_unique(self.centroid_ids@, unique),
            location: self.location,
            fde_location: self.fde_location,
            metadata: self.metadata@,
            tokens: self.centroid_ids@.len(),
            compressed_bytes: self.location.length as nat,
        }
    }

    /// Whether the document has vectors, and each a centroid of the codebook.
    pub open spec fn fits(&self, centroids: nat) -> bool {
        &&& self.centroid_ids@.len() > 0
        &&& forall|i: int| 0 <= i < self.centroid_ids@.len() ==> (#[trigger] self.centroid_ids@[i]) < centroids
    }
}

/// The state after a batch was written, document by document.
pub open spec fn upserts(s: StateView, batch: Seq<StagedDocument>) -> StateView
    decreases batch.len(),
{
    if batch.len() == 0 {
        s
    } else {
        upserts(s, batch.drop_last()).upserted(batch.last().id@, batch.last().record())
    }
}

/// The record of the last document of a batch that has an id, if there is one.
pub open spec fn last_write(batch: Seq<StagedDocument>, id: Seq<char>) -> Option<RecordView>
    decreases batch.len(),
{
    if batch.len() == 0 {
        None
    } else if batch.last().id@ == id {
        Some(batch.last().record())
    } else {
        last_write(batch.drop_last(), id)
    }
}

/// After a batch each of its ids has the record of its last document there; every
/// other id has what it had.
pub proof fn law_batches_are_last_wins(s: StateView, batch: Seq<StagedDocument>, id: Seq<char>)
    ensures
        last_write(batch, id) matches Some(record) ==> upserts(s, batch).documents.dom().contains(id) && upserts(
            s,
            batch,
        ).documents[id] == record,
        last_write(batch, id) is None ==> (upserts(s, batch).documents.dom().contains(id)
            <==> s.documents.dom().contains(id)),
        last_write(batch, id) is None && s.documents.dom().contains(id) ==> upserts(s, batch).documents[id]
            == s.documents[id],
    decreases batch.len(),
{
    if batch.len() > 0 {
        law_batches_are_last_wins(s, batch.drop_last(), id);
    }
}

/// A batch changes neither codebooks nor generation nor the graph, and keeps
/// everything that is derived in step with the documents.
pub proof fn law_batches_keep_the_invariant(s: StateView, batch: Seq<StagedDocument>)
    requires
        s.wf(),
        forall|i: int| 0 <= i < batch.len() ==> (#[trigger] batch[i]).fits(s.codebook.len()),
    ensures
        upserts(s, batch).wf(),
        upserts(s, batch).codebook == s.codebook,
        upserts(s, batch).residual_codebook == s.residual_codebook,
        upserts(s, batch).generation == s.generation,
        upserts(s, batch).fde_ann is Some <==> s.fde_ann is Some,
        s.fde_ann matches Some(ann) ==> upserts(s, batch).fde_ann->0.graph == ann.graph && upserts(
            s,
            batch,
        ).fde_ann->0.base == ann.base,
    decreases batch.len(),
{
    if batch.len() > 0 {
        assert forall|i: int| 0 <= i < batch.drop_last().len() implies (#[trigger] batch.drop_last()[i]).fits(
            s.codebook.len(),
        ) by {
            assert(batch[i].fits(s.codebook.len()));
        }
        law_batches_keep_the_invariant(s, batch.drop_last());
        lemma_record_fits(batch.last(), s.codebook.len());
        state::law_upsert_keeps_the_invariant(
            upserts(s, batch.drop_last()),
            batch.last().id@,
            batch.last().record(),
        );
    }
}

pub proof fn lemma_record_fits(document: StagedDocument, centroids: nat)
    requires
        document.fits(centroids),
    ensures
        state::record_fits(document.record(), centroids),
{
    lemma_sorted_unique_exists(document.centroid_ids@);
}

proof fn lemma_sorted_unique_exists(all: Seq<u32>) -> (unique: Seq<u32>)
    ensures
        state::is_sorted_unique(all, unique),
    decreases all.len(),
{
    if all.len() == 0 {
        Seq::empty()
    } else {
        let before = lemma_sorted_unique_exists(all.drop_last());
        let x = all.last();
        if before.contains(x) {
            assert forall|v: u32| #[trigger] before.contains(v) <==> all.contains(v) by {
                if all.contains(v) {
                    let m = choose|m: int| 0 <= m < all.len() && all[m] == v;
                    if m < all.len() - 1 {
                        assert(all.drop_last()[m] == v);
                        assert(all.drop_last().contains(v));
                    }
                }
                if before.contains(v) {
                    assert(all.drop_last().contains(v));
                    let m = choose|m: int| 0 <= m < all.drop_last().len() && all.drop_last()[m] == v;
                    assert(all[m] == v);
                }
            }
            before
        } else {
            let at = lemma_insertion_point(before, x);
            let after = before.insert(at, x);
            assert forall|v: u32| #[trigger] after.contains(v) <==> all.contains(v) by {
                if after.contains(v) {
                    let m = choose|m: int| 0 <= m < after.len() && after[m] == v;
                    if m == at {
                        assert(all[all.len() - 1] == v);
                    } else {
                        let k = if m < at { m } else { m - 1 };
                        assert(before[k] == v);
                        assert(before.contains(v));
                        assert(all.drop_last().contains(v));
                        let n = choose|n: int| 0 <= n < all.drop_last().len() && all.drop_last()[n] == v;
                        assert(all[n] == v);
                    }
                }
                if all.contains(v) {
                    let m = choose|m: int| 0 <= m < all.len() && all[m] == v;
                    if m == all.len() - 1 {
                        assert(after[at] == v);
                    } else {
                        assert(all.drop_last()[m] == v);
                        assert(all.drop_last().contains(v));
                        assert(before.contains(v));
                        let k = choose|k: int| 0 <= k < before.len() && before[k] == v;
                        assert(after[if k < at { k } else { k + 1 }] == v);
                    }
                }
            }
            after
        }
    }
}

proof fn lemma_insertion_point(list: Seq<u32>, x: u32) -> (at: int)
    requires
        forall|i: int, j: int| 0 <= i < j < list.len() ==> #[trigger] list[i] < #[trigger] list[j],
        !list.contains(x),
    ensures
        0 <= at <= list.len(),
        forall|i: int| 0 <= i < at ==> #[trigger] list[i] < x,
        forall|i: int| at <= i < list.len() ==> x < #[trigger] list[i],
    decreases list.len(),
{
    if list.len() == 0 {
        0
    } else if list.last() < x {
        assert forall|i: int| 0 <= i < list.len() implies #[trigger] list[i] < x by {
            if i < list.len() - 1 {
                assert(list[i] < list[list.len() - 1]);
            }
        }
        list.len() as int
    } else {
        let front = list.drop_last();
        assert(!front.contains(x)) by {
            if front.contains(x) {
                let m = choose|m: int| 0 <= m < front.len() && front[m] == x;
                assert(list[m] == x);
            }
        }
        assert(list.contains(list.last()));
        let at = lemma_insertion_point(front, x);
        assert forall|i: int| at <= i < list.len() implies x < #[trigger] list[i] by {
            if i < list.len() - 1 {
                assert(x < front[i]);
            }
        }
        assert forall|i: int| 0 <= i < at implies #[trigger] list[i] < x by {
            assert(front[i] < x);
        }
        at
    }
}

/// What a change that was not refused ends in.
pub enum UpdateError<E> {
    /// Nothing was published: the index is as it was.
    Io(E),
    /// The change is published, but may not survive a loss of power.
    CommitUncertain(E),
}

impl MultiVectorIndex {
    /// Whether a state may take the place of the index's state.
    pub open spec fn accepts(&self, next: &State) -> bool {
        &&& next.ok()
        &&& next@.wf()
        &&& config::codebooks_shaped(
            self.config,
            next@.codebook,
            next@.residual_codebook,
            next.documents.ids().len() > 0,
        )
        &&& state::graph_fits(next@.fde_ann, self.config.encoding_dimension())
    }

    /// Whether the vectors are a matrix of finite numbers, of the dimension of the
    /// index and with at least one row.
    pub open spec fn takes(&self, vectors: Seq<Seq<Score>>) -> bool {
        vectors.len() > 0 && config::finite_matrix(vectors, self.config.dimension as nat)
    }

    /// Refuses vectors that are not a matrix of finite numbers, of the dimension of
    /// the index and with at least one row.
    pub fn validate(&self, v: &[Vec<Score>]) -> (r: Result<(), IndexError>)
        ensures
            self.takes(arith::rows(v@)) ==> r is Ok,
            !self.takes(arith::rows(v@)) ==> r == Err::<(), IndexError>(
                IndexError::Invalid(Reason::Vectors(self.config.dimension)),
            ),
    {
        if v.len() == 0 || !config::is_finite_matrix(v, self.config.dimension) {
            return Err(IndexError::Invalid(Reason::Vectors(self.config.dimension)));
        }
        Ok(())
    }

    /// Why a batch of vectors cannot be written.
    pub open spec fn upsert_error(&self, batch: Seq<Vec<Vec<Score>>>) -> Option<IndexError> {
        if exists|i: int| 0 <= i < batch.len() && !self.takes(arith::rows((#[trigger] batch[i])@)) {
            Some(IndexError::Invalid(Reason::Vectors(self.config.dimension)))
        } else if batch.len() > 0 && self.state@.codebook.len() == 0 {
            Some(IndexError::Invalid(Reason::UntrainedUpsert))
        } else {
            None
        }
    }

    /// Stages the next generation with a batch written whose vectors and encodings
    /// stand in the segments already. Nothing is staged for an empty batch.
    pub fn stage_batch(&self, batch: Vec<StagedDocument>) -> (r: Result<Option<State>, IndexError>)
        requires
            self.ok(),
            self.state@.codebook.len() > 0 ==> forall|i: int|
                0 <= i < batch@.len() ==> (#[trigger] batch@[i]).fits(self.state@.codebook.len()),
        ensures
            batch@.len() == 0 ==> r == Ok::<Option<State>, IndexError>(None),
            batch@.len() > 0 && self.state@.codebook.len() == 0 ==> r == Err::<Option<State>, IndexError>(
                IndexError::Invalid(Reason::UntrainedUpsert),
            ),
            batch@.len() > 0 && self.state@.codebook.len() > 0 && self.state.generation == u64::MAX ==> r == Err::<
                Option<State>,
                IndexError,
            >(IndexError::Invalid(Reason::GenerationExhausted)),
            batch@.len() > 0 && self.state@.codebook.len() > 0 && self.state.generation < u64::MAX ==> {
                &&& r is Ok
                &&& r->Ok_0 is Some
                &&& r->Ok_0->0@ == upserts(self.state@, batch@).committed()
                &&& self.accepts(&r->Ok_0->0)
            },
    {
        if batch.len() == 0 {
            return Ok(None);
        }
        if self.state.codebook.len() == 0 {
            return Err(IndexError::Invalid(Reason::UntrainedUpsert));
        }
        let ghost start = self.state@;
        let ghost all = batch@;
        let mut next: State = self.state.copy();
        let mut rest: Vec<StagedDocument> = batch;
        let mut done: usize = 0;
        let count: usize = rest.len();
        proof {
            assert(all.take(0) =~= Seq::<StagedDocument>::empty());
        }
        while done < count
            invariant
                done <= count,
                count == all.len(),
                start.wf(),
                start == self.state@,
                next.ok(),
                next@ == upserts(start, all.take(done as int)),
                next@.wf(),
                next@.codebook == start.codebook,
                next@.residual_codebook == start.residual_codebook,
                rest@ == all.skip(done as int),
                forall|i: int| 0 <= i < all.len() ==> (#[trigger] all[i]).fits(start.codebook.len()),
            decreases count - done,
        {
            let document: StagedDocument = rest.remove(0);
            proof {
                assert(document == all[done as int]);
                assert(rest@ =~= all.skip(done + 1));
                lemma_record_fits(document, start.codebook.len());
            }
            let unique_centroids: Vec<u32> = state::sorted_unique(document.centroid_ids.as_slice());
            proof {
                state::law_sorted_unique_is_unique(
                    document.centroid_ids@,
                    unique_centroids@,
                    document.record().unique_centroids,
                );
            }
            let tokens: usize = document.centroid_ids.len();
            let record = DocumentRecord {
                centroid_ids: document.centroid_ids,
                unique_centroids,
                location: document.location,
                fde_location: document.fde_location,
                metadata: document.metadata,
                tokens,
                compressed_bytes: document.location.length,
            };
            proof {
                assert(record@ == all[done as int].record());
                assert(all.take(done + 1).drop_last() =~= all.take(done as int));
                assert(all.take(done + 1).last() == all[done as int]);
            }
            next.put_document(document.id, record);
            done += 1;
        }
        proof {
            assert(all.take(done as int) =~= all);
            law_batches_keep_the_invariant(start, all);
            lemma_written(start, all);
            next.lemma_documents_nonempty(all.last().id@);
        }
        if next.advance() {
            proof {
                lemma_committed_wf(upserts(start, all));
            }
            Ok(Some(next))
        } else {
            Err(IndexError::Invalid(Reason::GenerationExhausted))
        }
    }

    /// Stages the next generation without a document. Nothing is staged where
    /// there is no such document.
    pub fn delete(&self, id: &str) -> (r: Result<Option<State>, IndexError>)
        requires
            self.ok(),
        ensures
            !self.state@.documents.dom().contains(id@) ==> r == Ok::<Option<State>, IndexError>(None),
            self.state@.documents.dom().contains(id@) && self.state.generation == u64::MAX ==> r == Err::<
                Option<State>,
                IndexError,
            >(IndexError::Invalid(Reason::GenerationExhausted)),
            self.state@.documents.dom().contains(id@) && self.state.generation < u64::MAX ==> {
                &&& r is Ok
                &&& r->Ok_0 is Some
                &&& r->Ok_0->0@ == self.state@.deleted(id@).committed()
                &&& self.accepts(&r->Ok_0->0)
            },
    {
        if !self.state.documents.contains_key(id) {
            return Ok(None);
        }
        let mut next: State = self.state.copy();
        let _ = next.drop_document(id);
        proof {
            let k = self.state.documents.lemma_position(id@);
            state::law_delete_keeps_the_invariant(self.state@, id@);
        }
        if next.advance() {
            Ok(Some(next))
        } else {
            Err(IndexError::Invalid(Reason::GenerationExhausted))
        }
    }

    /// Why codebooks cannot be trained from samples.
    pub open spec fn train_error(&self, samples: Seq<Seq<Score>>) -> Option<IndexError> {
        if !self.takes(samples) {
            Some(IndexError::Invalid(Reason::Vectors(self.config.dimension)))
        } else if samples.len() < self.config.centroids {
            Some(IndexError::Invalid(Reason::TooFewSamples))
        } else if self.state.documents.ids().len() > 0 {
            Some(IndexError::Invalid(Reason::NotEmpty))
        } else {
            None
        }
    }

    /// Refuses samples from which no codebooks can be trained, and an index that
    /// holds documents.
    pub fn check_train(&self, samples: &[Vec<Score>]) -> (r: Result<(), IndexError>)
        requires
            self.ok(),
        ensures
            match self.train_error(arith::rows(samples@)) {
                Some(e) => r == Err::<(), IndexError>(e),
                None => r is Ok,
            },
    {
        if let Err(e) = self.validate(samples) {
            return Err(e);
        }
        if samples.len() < self.config.centroids {
            return Err(IndexError::Invalid(Reason::TooFewSamples));
        }
        if !self.state.documents.is_empty() {
            return Err(IndexError::Invalid(Reason::NotEmpty));
        }
        Ok(())
    }

    /// Stages the next generation of an index without documents, with new
    /// codebooks.
    pub fn stage_training(&self, codebook: Vec<Vec<Score>>, residual_codebook: Vec<Score>) -> (r: Result<State, IndexError>)
        requires
            self.ok(),
            self.state.documents.ids().len() == 0,
            config::codebooks_shaped(self.config, arith::rows(codebook@), residual_codebook@, false),
        ensures
            self.state.generation == u64::MAX ==> r == Err::<State, IndexError>(
                IndexError::Invalid(Reason::GenerationExhausted),
            ),
            self.state.generation < u64::MAX ==> {
                &&& r is Ok
                &&& r->Ok_0@ == self.state@.trained(arith::rows(codebook@), residual_codebook@).committed()
                &&& self.accepts(&r->Ok_0)
            },
    {
        let ghost rows = arith::rows(codebook@);
        let mut postings: Vec<IdSet> = Vec::new();
        let mut c: usize = 0;
        while c < codebook.len()
            invariant
                c <= codebook@.len(),
                postings@.len() == c,
                forall|k: int|
                    0 <= k < c ==> (#[trigger] postings@[k]).wf() && state::id_set(postings@[k]) == Set::<Seq<char>>::empty(),
            decreases codebook@.len() - c,
        {
            let empty: IdSet = IdMap::new();
            assert(state::id_set(empty) =~= Set::<Seq<char>>::empty());
            postings.push(empty);
            c += 1;
        }
        let ghost fresh = residual_codebook@;
        let mut next = State {
            generation: self.state.generation,
            codebook,
            residual_codebook,
            documents: IdMap::new(),
            postings,
            fde_ann: None,
        };
        proof {
            let goal = self.state@.trained(rows, fresh);
            assert(self.state@.documents.dom() =~= Set::<Seq<char>>::empty());
            assert(next@.documents =~= self.state@.documents);
            assert(next@.postings =~= goal.postings);
            assert(next@ == goal);
            state::law_train_keeps_the_invariant(self.state@, rows, fresh);
        }
        if next.advance() {
            Ok(next)
        } else {
            Err(IndexError::Invalid(Reason::GenerationExhausted))
        }
    }

    /// Lets a staged state take the place of the old one, as the outcome of writing
    /// it down has it: where it was published, though not for certain durable, and
    /// not where it was not.
    pub fn finish_commit<E>(&mut self, next: State, outcome: Result<(), CommitError<E>>) -> (r: Result<(), UpdateError<E>>)
        requires
            old(self).ok(),
            old(self).accepts(&next),
        ensures
            final(self).ok(),
            final(self).config == old(self).config,
            final(self).durability == old(self).durability,
            final(self).fde_encoding_version == old(self).fde_encoding_version,
            match outcome {
                Ok(_) => r is Ok && final(self).state == next,
                Err(e) => if e.published {
                    r == Err::<(), UpdateError<E>>(UpdateError::CommitUncertain(e.source)) && final(self).state == next
                } else {
                    r == Err::<(), UpdateError<E>>(UpdateError::Io(e.source)) && final(self).state == old(self).state
                },
            },
    {
        match outcome {
            Ok(_) => {
                self.state = next;
                Ok(())
            },
            Err(e) => {
                if e.published {
                    self.state = next;
                    Err(UpdateError::CommitUncertain(e.source))
                } else {
                    Err(UpdateError::Io(e.source))
                }
            },
        }
    }

    /// Refuses parameters of a graph that are zero.
    pub fn check_build(m: usize, ef_construct: usize) -> (r: Result<(), IndexError>)
        ensures
            m > 0 && ef_construct > 0 ==> r is Ok,
            m == 0 || ef_construct == 0 ==> r == Err::<(), IndexError>(IndexError::Invalid(Reason::HnswParameters)),
    {
        if m == 0 || ef_construct == 0 {
            return Err(IndexError::Invalid(Reason::HnswParameters));
        }
        Ok(())
    }

    /// Takes a graph over the documents of a generation into use, with the
    /// documents as its points in the order of their ids, and gives their number.
    /// A graph over an earlier generation is refused.
    pub fn build_fde_ann(&mut self, built_generation: u64, graph: HNSWIndex) -> (r: Result<usize, IndexError>)
        requires
            old(self).ok(),
            built_generation == old(self).state.generation ==> {
                &&& state::spans(graph, old(self).state.documents.ids().len())
                &&& graph.dim == old(self).config.encoding_dimension()
            },
        ensures
            final(self).ok(),
            final(self).config == old(self).config,
            final(self).durability == old(self).durability,
            final(self).fde_encoding_version == old(self).fde_encoding_version,
            built_generation != old(self).state.generation ==> {
                &&& r == Err::<usize, IndexError>(
                    IndexError::Invalid(Reason::GenerationMoved(built_generation, old(self).state.generation)),
                )
                &&& final(self).state == old(self).state
            },
            built_generation == old(self).state.generation ==> {
                &&& r == Ok::<usize, IndexError>(old(self).state.documents.ids().len() as usize)
                &&& final(self).state@ == (StateView {
                    fde_ann: Some(
                        AnnView {
                            graph,
                            base: old(self).state.documents.ids(),
                            tombstones: Seq::new(old(self).state.documents.ids().len(), |i: int| false),
                            delta: Set::empty(),
                            generation: built_generation as nat,
                        },
                    ),
                    ..old(self).state@
                })
                &&& final(self).state.documents == old(self).state.documents
            },
    {
        if self.state.generation != built_generation {
            return Err(IndexError::Invalid(Reason::GenerationMoved(built_generation, self.state.generation)));
        }
        let count: usize = self.state.documents.len();
        let base: IdSet = state::key_set(&self.state.documents);
        let tombstones: Vec<bool> = vec![false; count];
        let delta: IdSet = IdMap::new();
        proof {
            assert(state::id_set(delta) =~= Set::<Seq<char>>::empty());
            assert(tombstones@ =~= Seq::new(count as nat, |i: int| false));
        }
        let ann = FdeAnn { graph: Arc::new(graph), base, tombstones, delta, generation: built_generation };
        proof {
            ids::law_ascending_ids_are_distinct(ann.base.ids());
            let docs = self.state@.documents.dom();
            assert forall|point: int| #![trigger ann@.live(point)] ann@.live(point) implies docs.contains(ann@.base[point])
                && !ann@.delta.contains(ann@.base[point]) by {
                self.state.documents.lemma_entry(point);
            }
            assert forall|id: Seq<char>| #[trigger] docs.contains(id) && !ann@.delta.contains(id) implies exists|
                point: int,
            |
                #[trigger] ann@.live(point) && ann@.base[point] == id by {
                let k = self.state.documents.lemma_position(id);
                assert(ann@.live(k));
            }
            assert(ann@.covers(docs));
        }
        self.state.fde_ann = Some(ann);
        Ok(count)
    }

    /// Whether the graph and the changes since cover the current generation.
    pub fn hnsw_ready(&self) -> (r: bool)
        ensures
            r == (self.state@.fde_ann matches Some(ann) && ann.generation == self.state@.generation),
    {
        match &self.state.fde_ann {
            Some(ann) => ann.generation == self.state.generation,
            None => false,
        }
    }
}

impl State {
    /// A state with a document has ids.
    proof fn lemma_documents_nonempty(&self, id: Seq<char>)
        requires
            self.ok(),
            self@.documents.dom().contains(id),
        ensures
            self.documents.ids().len() > 0,
    {
        let k = self.documents.lemma_position(id);
    }
}

proof fn lemma_written(s: StateView, batch: Seq<StagedDocument>)
    requires
        batch.len() > 0,
    ensures
        upserts(s, batch).documents.dom().contains(batch.last().id@),
{
}

proof fn lemma_committed_wf(s: StateView)
    requires
        s.wf(),
    ensures
        s.committed().wf(),
{
    if let Some(ann) = s.fde_ann {
        let last = s.committed().fde_ann->0;
        assert forall|point: int| #![trigger last.live(point)] last.live(point) implies s.documents.dom().contains(
            last.base[point],
        ) && !last.delta.contains(last.base[point]) by {
            assert(ann.live(point));
        }
        assert forall|x: Seq<char>| #[trigger] s.documents.dom().contains(x) && !last.delta.contains(x) implies exists|
            point: int,
        |
            #[trigger] last.live(point) && last.base[point] == x by {
            let point = choose|point: int| #[trigger] ann.live(point) && ann.base[point] == x;
            assert(last.live(point));
        }
    }
}

/// A graph that was taken into use stays ready through writes and deletions: each
/// generation's documents are covered by it and the changes since.
pub proof fn law_graph_stays_ready(s: StateView, batch: Seq<StagedDocument>, id: Seq<char>)
    requires
        s.wf(),
        s.fde_ann is Some,
        forall|i: int| 0 <= i < batch.len() ==> (#[trigger] batch[i]).fits(s.codebook.len()),
    ensures
        upserts(s, batch).committed().wf(),
        upserts(s, batch).committed().fde_ann matches Some(ann) && ann.generation == s.generation + 1,
        s.deleted(id).committed().wf(),
        s.deleted(id).committed().fde_ann matches Some(ann) && ann.generation == s.generation + 1,
{
    law_batches_keep_the_invariant(s, batch);
    lemma_committed_wf(upserts(s, batch));
    state::law_delete_keeps_the_invariant(s, id);
}

} // verus!
