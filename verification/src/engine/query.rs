//! What queries must meet, and how many candidates they take.

use vstd::prelude::*;
use crate::arith;
use crate::config;
use crate::config::{IndexError, Reason};
use crate::engine::index::MultiVectorIndex;
use crate::score::Score;

verus! {

/// Where a query takes its candidates from.
#[derive(Clone, Copy, Debug, PartialEq, Eq, Structural)]
pub enum Backend {
    /// The graph over the encodings, and the documents written since.
    Hnsw,
    /// The encodings of all documents.
    Muvera,
}

impl Backend {
    /// The name of a backend.
    pub open spec fn text(self) -> Seq<char> {
        match self {
            Backend::Hnsw => "hnsw"@,
            Backend::Muvera => "muvera"@,
        }
    }

    /// The name of the backend.
    pub fn name(&self) -> (r: &'static str)
        ensures
            r@ == self.text(),
    {
        match self {
            Backend::Hnsw => "hnsw",
            Backend::Muvera => "muvera",
        }
    }
}

impl MultiVectorIndex {
    /// Refuses a query without vectors or results, and gives the number of
    /// candidates.
    pub fn check_query(&self, vectors: &[Vec<Score>], top_k: usize, candidates: Option<usize>) -> (r: Result<usize, IndexError>)
        ensures
            !self.takes(arith::rows(vectors@)) ==> r == Err::<usize, IndexError>(
                IndexError::Invalid(Reason::Vectors(self.config.dimension)),
            ),
            self.takes(arith::rows(vectors@)) && top_k == 0 ==> r == Err::<usize, IndexError>(
                IndexError::Invalid(Reason::TopK),
            ),
            self.takes(arith::rows(vectors@)) && top_k > 0 ==> r is Ok && r->Ok_0 == config::candidate_budget(
                top_k,
                candidates,
            ),
    {
        if let Err(e) = self.validate(vectors) {
            return Err(e);
        }
        if top_k == 0 {
            return Err(IndexError::Invalid(Reason::TopK));
        }
        Ok(config::candidate_count(top_k, candidates))
    }

    /// Refuses a query over the graph without vectors, results or a candidate list,
    /// and gives the number of candidates.
    pub fn check_ann_query(&self, vectors: &[Vec<Score>], top_k: usize, candidates: Option<usize>, ef_search: usize) -> (r: Result<
        usize,
        IndexError,
    >)
        ensures
            !self.takes(arith::rows(vectors@)) ==> r == Err::<usize, IndexError>(
                IndexError::Invalid(Reason::Vectors(self.config.dimension)),
            ),
            self.takes(arith::rows(vectors@)) && (top_k == 0 || ef_search == 0) ==> r == Err::<usize, IndexError>(
                IndexError::Invalid(Reason::TopKAndEf),
            ),
            self.takes(arith::rows(vectors@)) && top_k > 0 && ef_search > 0 ==> r is Ok && r->Ok_0
                == config::candidate_budget(top_k, candidates),
    {
        if let Err(e) = self.validate(vectors) {
            return Err(e);
        }
        if top_k == 0 || ef_search == 0 {
            return Err(IndexError::Invalid(Reason::TopKAndEf));
        }
        Ok(config::candidate_count(top_k, candidates))
    }

    /// Refuses a query whose stages do not narrow.
    pub fn check_pruned_query(
        &self,
        vectors: &[Vec<Score>],
        top_k: usize,
        candidates: usize,
        rerank_candidates: usize,
    ) -> (r: Result<(), IndexError>)
        ensures
            !self.takes(arith::rows(vectors@)) ==> r == Err::<(), IndexError>(
                IndexError::Invalid(Reason::Vectors(self.config.dimension)),
            ),
            self.takes(arith::rows(vectors@)) && !(0 < top_k <= rerank_candidates <= candidates) ==> r == Err::<
                (),
                IndexError,
            >(IndexError::Invalid(Reason::Pruning)),
            self.takes(arith::rows(vectors@)) && 0 < top_k <= rerank_candidates <= candidates ==> r is Ok,
    {
        if let Err(e) = self.validate(vectors) {
            return Err(e);
        }
        config::check_pruning_shape(top_k, candidates, rerank_candidates)
    }

    /// Refuses a query over the graph without a candidate list, or whose stages do
    /// not narrow.
    pub fn check_pruned_ann_query(
        &self,
        vectors: &[Vec<Score>],
        top_k: usize,
        candidates: usize,
        rerank_candidates: usize,
        ef_search: usize,
    ) -> (r: Result<(), IndexError>)
        ensures
            !self.takes(arith::rows(vectors@)) ==> r == Err::<(), IndexError>(
                IndexError::Invalid(Reason::Vectors(self.config.dimension)),
            ),
            self.takes(arith::rows(vectors@)) && ef_search == 0 ==> r == Err::<(), IndexError>(
                IndexError::Invalid(Reason::Ef),
            ),
            self.takes(arith::rows(vectors@)) && ef_search > 0 && !(0 < top_k <= rerank_candidates <= candidates) ==> r
                == Err::<(), IndexError>(IndexError::Invalid(Reason::Pruning)),
            self.takes(arith::rows(vectors@)) && ef_search > 0 && 0 < top_k <= rerank_candidates <= candidates ==> r is Ok,
    {
        if let Err(e) = self.validate(vectors) {
            return Err(e);
        }
        if ef_search == 0 {
            return Err(IndexError::Invalid(Reason::Ef));
        }
        config::check_pruning_shape(top_k, candidates, rerank_candidates)
    }

    /// Refuses a request for no candidates.
    pub fn check_candidates(&self, vectors: &[Vec<Score>], count: usize) -> (r: Result<(), IndexError>)
        ensures
            !self.takes(arith::rows(vectors@)) ==> r == Err::<(), IndexError>(
                IndexError::Invalid(Reason::Vectors(self.config.dimension)),
            ),
            self.takes(arith::rows(vectors@)) && count == 0 ==> r == Err::<(), IndexError>(
                IndexError::Invalid(Reason::CandidateCount),
            ),
            self.takes(arith::rows(vectors@)) && count > 0 ==> r is Ok,
    {
        if let Err(e) = self.validate(vectors) {
            return Err(e);
        }
        if count == 0 {
            return Err(IndexError::Invalid(Reason::CandidateCount));
        }
        Ok(())
    }

    /// Refuses a request to the graph for no candidates, or without a candidate
    /// list.
    pub fn check_ann_candidates(&self, vectors: &[Vec<Score>], count: usize, ef_search: usize) -> (r: Result<(), IndexError>)
        ensures
            !self.takes(arith::rows(vectors@)) ==> r == Err::<(), IndexError>(
                IndexError::Invalid(Reason::Vectors(self.config.dimension)),
            ),
            self.takes(arith::rows(vectors@)) && (count == 0 || ef_search == 0) ==> r == Err::<(), IndexError>(
                IndexError::Invalid(Reason::CandidateCountAndEf),
            ),
            self.takes(arith::rows(vectors@)) && count > 0 && ef_search > 0 ==> r is Ok,
    {
        if let Err(e) = self.validate(vectors) {
            return Err(e);
        }
        if count == 0 || ef_search == 0 {
            return Err(IndexError::Invalid(Reason::CandidateCountAndEf));
        }
        Ok(())
    }

    /// The backend of a query that names none: the graph where it covers the
    /// current generation.
    pub open spec fn chosen_backend(&self) -> Backend {
        if self.state@.fde_ann matches Some(ann) && ann.generation == self.state@.generation {
            Backend::Hnsw
        } else {
            Backend::Muvera
        }
    }

    /// The backend of a query that names none.
    pub fn auto_backend(&self) -> (r: Backend)
        ensures
            r == self.chosen_backend(),
    {
        if self.hnsw_ready() {
            Backend::Hnsw
        } else {
            Backend::Muvera
        }
    }
}

} // verus!
