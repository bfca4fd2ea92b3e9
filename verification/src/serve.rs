//! How a search request is answered: which search it asks for, and what is said
//! of the hits when it asks for an explanation.

use vstd::prelude::*;
use crate::arith;
use crate::config::{IndexError, Reason};
use crate::engine::answer;
use crate::engine::answer::Segments;
use crate::engine::index::MultiVectorIndex;
use crate::engine::late;
use crate::engine::late::Kernels;
use crate::engine::query::Backend;
use crate::engine::rank::{CandidateHit, Hit};
use crate::error::StorageError;
use crate::ids;
use crate::muvera::FdeEncoder;
use crate::order;
use crate::score;
use crate::score::Score;

verus! {

/// The results of a request that asks for no number.
pub fn ten() -> (r: usize)
    ensures
        r == 10,
{
    10
}

/// The rounds of a training that asks for no number.
pub fn twenty() -> (r: usize)
    ensures
        r == 20,
{
    20
}

/// The neighbours of a graph that is asked for without a number.
pub fn sixteen() -> (r: usize)
    ensures
        r == 16,
{
    16
}

/// The size of a candidate list where none is asked for.
pub fn two_fifty_six() -> (r: usize)
    ensures
        r == 256,
{
    256
}

/// The backend of a request for candidates that names none.
pub fn default_candidate_backend() -> (r: String)
    ensures
        r@ == "muvera"@,
{
    "muvera".to_owned()
}

/// What a search request asks for, beside its vectors.
pub struct QueryKnobs {
    pub candidates: Option<usize>,
    pub rerank_candidates: Option<usize>,
    pub probes: Option<usize>,
    pub candidate_backend: Option<String>,
    pub ef_search: Option<usize>,
}

/// The search that answers a request.
#[allow(inconsistent_fields)]
#[derive(Clone, Copy, Debug, PartialEq, Eq, Structural)]
pub enum QueryPlan {
    /// Over the graph, pruned by centroids.
    AnnPruned { candidates: usize, rerank_candidates: usize, ef_search: usize },
    /// Over the graph.
    Ann { candidates: Option<usize>, ef_search: usize },
    /// Over the graph where it is ready, else over all encodings.
    Auto { candidates: Option<usize>, ef_search: usize },
    /// Over all encodings, pruned by centroids.
    Pruned { candidates: usize, rerank_candidates: usize },
    /// Over the documents near the probed centroids.
    Probes { candidates: Option<usize>, probes: usize },
    /// Over all encodings.
    Exact { candidates: Option<usize> },
}

/// Why a request asks for no search.
#[derive(Clone, Copy, Debug, PartialEq, Eq, Structural)]
pub enum PlanError {
    /// Probes or pruning were asked of the automatic backend.
    AutoWithKnobs,
    /// Probes and pruning were asked for together.
    RerankWithProbes,
    /// There is no such backend.
    UnknownBackend,
    /// Not exactly one of a document and an id was given.
    DocumentOrId,
}

impl PlanError {
    /// The text of an error; that of an unknown backend ends before its name.
    pub open spec fn text(self) -> Seq<char> {
        match self {
            PlanError::AutoWithKnobs =>
                "auto backend does not accept probes/rerank_candidates; specify candidate_backend=muvera or hnsw explicitly"@,
            PlanError::RerankWithProbes => "rerank_candidates cannot be combined with probes"@,
            PlanError::UnknownBackend => "unknown candidate backend: "@,
            PlanError::DocumentOrId => "provide exactly one of document or id"@,
        }
    }

    /// The text of the error; that of an unknown backend ends before its name.
    pub fn message(&self) -> (r: &'static str)
        ensures
            r@ == self.text(),
    {
        match self {
            PlanError::AutoWithKnobs =>
                "auto backend does not accept probes/rerank_candidates; specify candidate_backend=muvera or hnsw explicitly",
            PlanError::RerankWithProbes => "rerank_candidates cannot be combined with probes",
            PlanError::UnknownBackend => "unknown candidate backend: ",
            PlanError::DocumentOrId => "provide exactly one of document or id",
        }
    }
}

impl QueryKnobs {
    /// The backend that a request goes to: the one that it names; the exact one
    /// where it names none but asks for probes or pruning; else the automatic one.
    pub open spec fn backend(&self) -> Seq<char> {
        match self.candidate_backend {
            Some(name) => name@,
            None => if self.probes is Some || self.rerank_candidates is Some {
                "muvera"@
            } else {
                "auto"@
            },
        }
    }

    /// The size of the candidate list.
    pub open spec fn ef(&self) -> usize {
        match self.ef_search {
            Some(n) => n,
            None => 256,
        }
    }

    /// The candidates of a pruned search: as many as survive where no number is
    /// asked for.
    pub open spec fn broad(&self, rerank_candidates: usize) -> usize {
        match self.candidates {
            Some(n) => n,
            None => rerank_candidates,
        }
    }

    /// The search that a request asks for.
    pub open spec fn plan(&self) -> Result<QueryPlan, PlanError> {
        if self.backend() == "hnsw"@ {
            match self.rerank_candidates {
                Some(rerank_candidates) => Ok(
                    QueryPlan::AnnPruned {
                        candidates: self.broad(rerank_candidates),
                        rerank_candidates,
                        ef_search: self.ef(),
                    },
                ),
                None => Ok(QueryPlan::Ann { candidates: self.candidates, ef_search: self.ef() }),
            }
        } else if self.backend() == "auto"@ {
            if self.probes is Some || self.rerank_candidates is Some {
                Err(PlanError::AutoWithKnobs)
            } else {
                Ok(QueryPlan::Auto { candidates: self.candidates, ef_search: self.ef() })
            }
        } else if self.backend() == "muvera"@ {
            match (self.probes, self.rerank_candidates) {
                (None, Some(rerank_candidates)) => Ok(
                    QueryPlan::Pruned { candidates: self.broad(rerank_candidates), rerank_candidates },
                ),
                (Some(probes), None) => Ok(QueryPlan::Probes { candidates: self.candidates, probes }),
                (None, None) => Ok(QueryPlan::Exact { candidates: self.candidates }),
                (Some(_), Some(_)) => Err(PlanError::RerankWithProbes),
            }
        } else {
            Err(PlanError::UnknownBackend)
        }
    }
}

/// The search that a request asks for.
pub fn plan_query(knobs: &QueryKnobs) -> (r: Result<QueryPlan, PlanError>)
    ensures
        r == knobs.plan(),
{
    let legacy: bool = knobs.probes.is_some() || knobs.rerank_candidates.is_some();
    let backend: &str = match &knobs.candidate_backend {
        Some(name) => name.as_str(),
        None => if legacy {
            "muvera"
        } else {
            "auto"
        },
    };
    proof {
        reveal_strlit("hnsw");
        reveal_strlit("auto");
        reveal_strlit("muvera");
        assert("auto"@[0] != "muvera"@[0]);
        assert("auto"@[0] != "hnsw"@[0]);
        assert("muvera"@[0] != "hnsw"@[0]);
    }
    let ef_search: usize = match knobs.ef_search {
        Some(n) => n,
        None => two_fifty_six(),
    };
    if ids::is_same_id(backend, "hnsw") {
        match knobs.rerank_candidates {
            Some(rerank_candidates) => {
                let candidates: usize = match knobs.candidates {
                    Some(n) => n,
                    None => rerank_candidates,
                };
                Ok(QueryPlan::AnnPruned { candidates, rerank_candidates, ef_search })
            },
            None => Ok(QueryPlan::Ann { candidates: knobs.candidates, ef_search }),
        }
    } else if ids::is_same_id(backend, "auto") {
        if legacy {
            Err(PlanError::AutoWithKnobs)
        } else {
            Ok(QueryPlan::Auto { candidates: knobs.candidates, ef_search })
        }
    } else if ids::is_same_id(backend, "muvera") {
        match (knobs.probes, knobs.rerank_candidates) {
            (None, Some(rerank_candidates)) => {
                let candidates: usize = match knobs.candidates {
                    Some(n) => n,
                    None => rerank_candidates,
                };
                Ok(QueryPlan::Pruned { candidates, rerank_candidates })
            },
            (Some(probes), None) => Ok(QueryPlan::Probes { candidates: knobs.candidates, probes }),
            (None, None) => Ok(QueryPlan::Exact { candidates: knobs.candidates }),
            (Some(_), Some(_)) => Err(PlanError::RerankWithProbes),
        }
    } else {
        Err(PlanError::UnknownBackend)
    }
}

/// A request that names no backend but asks for probes or pruning is answered as
/// one that names the exact backend.
pub proof fn law_omitted_backend_preserves_knobs(implicit: QueryKnobs, explicit: QueryKnobs)
    requires
        implicit.candidate_backend is None,
        implicit.probes is Some || implicit.rerank_candidates is Some,
        explicit.candidate_backend matches Some(name) && name@ == "muvera"@,
        explicit.candidates == implicit.candidates,
        explicit.rerank_candidates == implicit.rerank_candidates,
        explicit.probes == implicit.probes,
        explicit.ef_search == implicit.ef_search,
    ensures
        implicit.plan() == explicit.plan(),
{
}

/// A request that names no backend and asks for neither probes nor pruning is
/// answered as one that names the automatic backend.
pub proof fn law_omitted_backend_is_automatic(implicit: QueryKnobs, explicit: QueryKnobs)
    requires
        implicit.candidate_backend is None,
        implicit.probes is None,
        implicit.rerank_candidates is None,
        explicit.candidate_backend matches Some(name) && name@ == "auto"@,
        explicit.candidates == implicit.candidates,
        explicit.rerank_candidates == implicit.rerank_candidates,
        explicit.probes == implicit.probes,
        explicit.ef_search == implicit.ef_search,
    ensures
        implicit.plan() == explicit.plan(),
        implicit.plan() is Ok,
{
    reveal_strlit("hnsw");
    reveal_strlit("auto");
    assert("auto"@[0] != "hnsw"@[0]);
}

/// The backend of a name, if there is one.
pub open spec fn named_backend(name: Seq<char>) -> Option<Backend> {
    if name == "muvera"@ {
        Some(Backend::Muvera)
    } else if name == "hnsw"@ {
        Some(Backend::Hnsw)
    } else {
        None
    }
}

/// The backend of a name, if there is one.
pub fn candidate_backend(name: &str) -> (r: Option<Backend>)
    ensures
        r == named_backend(name@),
{
    if ids::is_same_id(name, "muvera") {
        Some(Backend::Muvera)
    } else if ids::is_same_id(name, "hnsw") {
        Some(Backend::Hnsw)
    } else {
        None
    }
}

/// Why a request is not answered.
#[derive(Clone, Copy, Debug, PartialEq, Eq, Structural)]
pub enum ServeError {
    /// It asks for nothing that there is.
    Plan(PlanError),
    /// The index refuses it.
    Index(IndexError),
}

impl ServeError {
    /// Whether the request is at fault, and not the index.
    pub open spec fn blames_request(self) -> bool {
        self matches ServeError::Index(e) ==> e is Invalid
    }

    /// Whether the request is at fault, and not the index.
    pub fn is_bad_request(&self) -> (r: bool)
        ensures
            r == self.blames_request(),
    {
        match self {
            ServeError::Plan(_) => true,
            ServeError::Index(IndexError::Invalid(_)) => true,
            ServeError::Index(_) => false,
        }
    }
}

/// What the index answered, where the request reached it.
pub open spec fn of_index<T>(r: Result<Vec<T>, ServeError>) -> Option<Result<Seq<T>, IndexError>> {
    match r {
        Ok(list) => Some(Ok(list@)),
        Err(ServeError::Index(e)) => Some(Err(e)),
        Err(ServeError::Plan(_)) => None,
    }
}

/// Whether these are the hits of the search that a plan names.
pub open spec fn follows<N, D, G, A>(
    plan: QueryPlan,
    index: MultiVectorIndex,
    kernels: Kernels<'_, N, D, G, A>,
    encoder: FdeEncoder,
    vectors: Seq<Seq<Score>>,
    segments: Segments<'_>,
    top_k: usize,
    r: Result<Seq<Hit>, IndexError>,
) -> bool where
    N: Fn(&[Score]) -> Vec<Score>,
    D: Fn(&[Score], &[Score]) -> Score,
    G: Fn(Score, Score) -> Score,
    A: Fn(Score, Score) -> Score,
 {
    match plan {
        QueryPlan::AnnPruned { candidates, rerank_candidates, ef_search } => answer::is_pruned_ann_query(
            index,
            kernels,
            encoder,
            vectors,
            segments,
            top_k,
            candidates,
            rerank_candidates,
            ef_search,
            r,
        ),
        QueryPlan::Ann { candidates, ef_search } => answer::is_ann_query(
            index,
            kernels,
            encoder,
            vectors,
            segments,
            top_k,
            candidates,
            ef_search,
            r,
        ),
        QueryPlan::Auto { candidates, ef_search } => answer::is_auto_query(
            index,
            kernels,
            encoder,
            vectors,
            segments,
            top_k,
            candidates,
            ef_search,
            r,
        ),
        QueryPlan::Pruned { candidates, rerank_candidates } => answer::is_pruned_query(
            index,
            kernels,
            encoder,
            vectors,
            segments,
            top_k,
            candidates,
            rerank_candidates,
            r,
        ),
        QueryPlan::Probes { candidates, probes } => answer::is_probed_query(
            index,
            kernels,
            vectors,
            segments.objects@,
            top_k,
            candidates,
            probes,
            r,
        ),
        QueryPlan::Exact { candidates } => answer::is_query(
            index,
            kernels,
            encoder,
            vectors,
            segments,
            top_k,
            candidates,
            r,
        ),
    }
}

/// The hits of the search that a plan names.
fn follow<N, D, G, A>(
    plan: QueryPlan,
    index: &MultiVectorIndex,
    kernels: &Kernels<'_, N, D, G, A>,
    encoder: &FdeEncoder,
    vectors: &[Vec<Score>],
    segments: Segments<'_>,
    top_k: usize,
) -> (r: Result<Vec<Hit>, IndexError>) where
    N: Fn(&[Score]) -> Vec<Score>,
    D: Fn(&[Score], &[Score]) -> Score + Sync,
    G: Fn(Score, Score) -> Score + Sync,
    A: Fn(Score, Score) -> Score + Sync,

    requires
        index.ok(),
        index.encodes_with(*encoder),
        kernels.ok(),
    ensures
        follows(
            plan,
            *index,
            *kernels,
            *encoder,
            arith::rows(vectors@),
            segments,
            top_k,
            answer::listed(r),
        ),
{
    match plan {
        QueryPlan::AnnPruned { candidates, rerank_candidates, ef_search } => index.query_with_fde_ann_and_pruning(
            vectors,
            top_k,
            candidates,
            rerank_candidates,
            ef_search,
            encoder,
            segments,
            kernels,
        ),
        QueryPlan::Ann { candidates, ef_search } => index.query_with_fde_ann(
            vectors,
            top_k,
            candidates,
            ef_search,
            encoder,
            segments,
            kernels,
        ),
        QueryPlan::Auto { candidates, ef_search } => index.query_auto(
            vectors,
            top_k,
            candidates,
            ef_search,
            encoder,
            segments,
            kernels,
        ),
        QueryPlan::Pruned { candidates, rerank_candidates } => index.query_with_centroid_pruning(
            vectors,
            top_k,
            candidates,
            rerank_candidates,
            encoder,
            segments,
            kernels,
        ),
        QueryPlan::Probes { candidates, probes } => index.query_with_probes(
            vectors,
            top_k,
            candidates,
            probes,
            segments.objects,
            kernels,
        ),
        QueryPlan::Exact { candidates } => index.query(
            vectors,
            top_k,
            candidates,
            encoder,
            segments,
            kernels,
        ),
    }
}

/// The hits of the search that a request asks for.
pub fn query<N, D, G, A>(
    index: &MultiVectorIndex,
    knobs: &QueryKnobs,
    vectors: &[Vec<Score>],
    top_k: usize,
    encoder: &FdeEncoder,
    segments: Segments<'_>,
    kernels: &Kernels<'_, N, D, G, A>,
) -> (r: Result<Vec<Hit>, ServeError>) where
    N: Fn(&[Score]) -> Vec<Score>,
    D: Fn(&[Score], &[Score]) -> Score + Sync,
    G: Fn(Score, Score) -> Score + Sync,
    A: Fn(Score, Score) -> Score + Sync,

    requires
        index.ok(),
        index.encodes_with(*encoder),
        kernels.ok(),
    ensures
        match knobs.plan() {
            Err(e) => r == Err::<Vec<Hit>, ServeError>(ServeError::Plan(e)),
            Ok(plan) => of_index(r) is Some && follows(
                plan,
                *index,
                *kernels,
                *encoder,
                arith::rows(vectors@),
                segments,
                top_k,
                of_index(r)->0,
            ),
        },
{
    let plan: QueryPlan = match plan_query(knobs) {
        Ok(plan) => plan,
        Err(e) => {
            return Err(ServeError::Plan(e));
        },
    };
    match follow(plan, index, kernels, encoder, vectors, segments, top_k) {
        Ok(hits) => Ok(hits),
        Err(e) => Err(ServeError::Index(e)),
    }
}

/// The score of a document that is given, or of one that is stored.
pub fn score<N, D, G, A>(
    index: &MultiVectorIndex,
    query: &[Vec<Score>],
    document: Option<&Vec<Vec<Score>>>,
    id: Option<&String>,
    objects: &[u8],
    kernels: &Kernels<'_, N, D, G, A>,
) -> (r: Result<Score, ServeError>) where
    N: Fn(&[Score]) -> Vec<Score>,
    D: Fn(&[Score], &[Score]) -> Score,
    G: Fn(Score, Score) -> Score,
    A: Fn(Score, Score) -> Score,

    requires
        index.ok(),
        kernels.ok(),
    ensures
        document is Some == id is Some ==> r == Err::<Score, ServeError>(ServeError::Plan(PlanError::DocumentOrId)),
        document is Some && id is None ==> r == if index.takes(arith::rows(query@)) && index.takes(
            arith::rows(document->0@),
        ) {
            Ok::<Score, ServeError>(
                late::interaction(
                    *kernels.dot,
                    *kernels.greater,
                    *kernels.add,
                    late::normalized_rows(*kernels.normalize, arith::rows(query@)),
                    late::normalized_rows(*kernels.normalize, arith::rows(document->0@)),
                ),
            )
        } else {
            Err::<Score, ServeError>(
                ServeError::Index(IndexError::Invalid(Reason::Vectors(index.config.dimension))),
            )
        },
        document is None && id is Some ==> r == if !index.takes(arith::rows(query@)) {
            Err::<Score, ServeError>(ServeError::Index(IndexError::Invalid(Reason::Vectors(index.config.dimension))))
        } else if !index.state@.documents.dom().contains(id->0@) {
            Err::<Score, ServeError>(ServeError::Index(IndexError::Invalid(Reason::UnknownDocument)))
        } else if objects@.len() == 0 {
            Err::<Score, ServeError>(ServeError::Index(IndexError::Io(StorageError::EmptyVectorSegment)))
        } else {
            match late::stored_score(
                *index,
                *kernels.dot,
                *kernels.greater,
                *kernels.add,
                late::normalized_rows(*kernels.normalize, arith::rows(query@)),
                objects@,
                index.state@.documents[id->0@].location,
            ) {
                Ok(score) => Ok::<Score, ServeError>(score),
                Err(e) => Err::<Score, ServeError>(ServeError::Index(IndexError::Io(e))),
            }
        },
{
    let outcome: Result<Score, IndexError> = match (document, id) {
        (Some(document), None) => index.score_uncompressed(query, document.as_slice(), kernels),
        (None, Some(id)) => index.score_compressed(query, id.as_str(), objects, kernels),
        _ => {
            return Err(ServeError::Plan(PlanError::DocumentOrId));
        },
    };
    match outcome {
        Ok(score) => Ok(score),
        Err(e) => Err(ServeError::Index(e)),
    }
}

/// The candidates that a request asks for.
pub fn candidates<N, D, G, A>(
    index: &MultiVectorIndex,
    name: &str,
    vectors: &[Vec<Score>],
    count: usize,
    ef_search: usize,
    encoder: &FdeEncoder,
    segments: Segments<'_>,
    kernels: &Kernels<'_, N, D, G, A>,
) -> (r: Result<Vec<CandidateHit>, ServeError>) where
    N: Fn(&[Score]) -> Vec<Score>,
    D: Fn(&[Score], &[Score]) -> Score + Sync,
    G: Fn(Score, Score) -> Score + Sync,
    A: Fn(Score, Score) -> Score + Sync,

    requires
        index.ok(),
        index.encodes_with(*encoder),
        kernels.ok(),
    ensures
        named_backend(name@) is None ==> r == Err::<Vec<CandidateHit>, ServeError>(
            ServeError::Plan(PlanError::UnknownBackend),
        ),
        named_backend(name@) is Some ==> of_index(r) is Some,
        named_backend(name@) == Some(Backend::Muvera) ==> answer::are_exact_candidates(
            *index,
            *kernels,
            *encoder,
            arith::rows(vectors@),
            segments,
            count,
            of_index(r)->0,
        ),
        named_backend(name@) == Some(Backend::Hnsw) ==> answer::are_ann_candidates(
            *index,
            *kernels,
            *encoder,
            arith::rows(vectors@),
            segments,
            count,
            ef_search,
            of_index(r)->0,
        ),
{
    let outcome: Result<Vec<CandidateHit>, IndexError> = match candidate_backend(name) {
        Some(Backend::Muvera) => index.exact_fde_candidates(vectors, count, encoder, segments, kernels),
        Some(Backend::Hnsw) => index.ann_fde_candidates(vectors, count, ef_search, encoder, segments, kernels),
        None => {
            return Err(ServeError::Plan(PlanError::UnknownBackend));
        },
    };
    match outcome {
        Ok(list) => Ok(list),
        Err(e) => Err(ServeError::Index(e)),
    }
}

/// How far the order of hits agrees with the order of the scores by which they
/// became candidates.
#[derive(Clone, Copy, Debug, PartialEq, Eq, Structural)]
pub struct Agreement {
    /// The place of the first hit in the order of those scores.
    pub top_rank: usize,
    /// How many hits are at most three places from where they are there.
    pub close: usize,
    /// Of how many.
    pub total: usize,
}

/// The keys by which the scores descend.
pub open spec fn descending_keys(scores: Seq<Score>) -> Seq<i64> {
    scores.map_values(|s: Score| (-score::total_key(s)) as i64)
}

/// The place of a hit when the hits are ordered by descending score, hits of equal
/// score in the order that they have.
pub open spec fn place(scores: Seq<Score>, hit: int) -> int {
    choose|i: int|
        0 <= i < scores.len() && #[trigger] order::stable_order(descending_keys(scores))[i] == hit
}

/// Whether two places are at most three apart.
pub open spec fn near(a: int, b: int) -> bool {
    -3 <= a - b <= 3
}

/// How many of the first `n` hits are near their place by score.
pub open spec fn close_hits(scores: Seq<Score>, n: nat) -> nat
    decreases n,
{
    if n == 0 {
        0
    } else {
        close_hits(scores, (n - 1) as nat) + if near(place(scores, n - 1), n - 1) {
            1nat
        } else {
            0nat
        }
    }
}

/// Compares the order of hits with that of the scores by which they became
/// candidates. A single hit, or none, agrees.
pub fn explain(fde_scores: &[Score]) -> (r: Agreement)
    ensures
        fde_scores@.len() <= 1 ==> r == (Agreement { top_rank: 0, close: 1, total: 1 }),
        fde_scores@.len() > 1 ==> {
            &&& r.top_rank == place(fde_scores@, 0)
            &&& r.close == close_hits(fde_scores@, fde_scores@.len())
            &&& r.total == fde_scores@.len()
        },
{
    let n: usize = fde_scores.len();
    if n <= 1 {
        return Agreement { top_rank: 0, close: 1, total: 1 };
    }
    let ghost keys = descending_keys(fde_scores@);
    let mut ranks: Vec<i64> = Vec::with_capacity(n);
    let mut i: usize = 0;
    while i < n
        invariant
            i <= n,
            n == fde_scores@.len(),
            keys == descending_keys(fde_scores@),
            ranks@ == keys.take(i as int),
        decreases n - i,
    {
        ranks.push(-score::total_rank(fde_scores[i]));
        i += 1;
        assert(ranks@ =~= keys.take(i as int));
    }
    assert(ranks@ =~= keys);
    let by_score: Vec<usize> = order::stable_order_of(ranks.as_slice());
    let ghost sequence = order::stable_order(keys);
    proof {
        order::law_stable_order(keys);
    }
    let mut places: Vec<usize> = vec![0; n];
    let mut k: usize = 0;
    while k < n
        invariant
            k <= n,
            n == fde_scores@.len(),
            places@.len() == n,
            by_score@.len() == n,
            sequence.len() == n,
            sequence.no_duplicates(),
            forall|j: int| 0 <= j < n ==> (#[trigger] sequence[j]) < n && by_score@[j] == sequence[j],
            forall|j: int| 0 <= j < k ==> places@[(#[trigger] sequence[j]) as int] == j,
        decreases n - k,
    {
        assert(sequence[k as int] < n);
        places.set(by_score[k], k);
        k += 1;
    }
    proof {
        lemma_places(sequence, places@);
        assert forall|p: int| 0 <= p < n implies #[trigger] places@[p] == place(fde_scores@, p) by {
            let j = places@[p] as int;
            assert(sequence[j] == p);
            let other = place(fde_scores@, p);
            assert(0 <= other < n && sequence[other] == p);
        }
    }
    let mut close: usize = 0;
    let mut p: usize = 0;
    while p < n
        invariant
            p <= n,
            n == fde_scores@.len(),
            places@.len() == n,
            close <= p,
            close == close_hits(fde_scores@, p as nat),
            forall|q: int| 0 <= q < n ==> #[trigger] places@[q] == place(fde_scores@, q),
        decreases n - p,
    {
        let at: usize = places[p];
        let apart: usize = if at < p {
            p - at
        } else {
            at - p
        };
        if apart <= 3 {
            close += 1;
        }
        p += 1;
    }
    Agreement { top_rank: places[0], close, total: n }
}

/// What is said of hits when an explanation is asked for.
pub struct Explanation {
    /// The score of the first hit.
    pub top_score: Score,
    /// That of the second one, or of the first where there is no other.
    pub second_score: Score,
    /// The score by which the first hit became a candidate.
    pub fde_top_score: Score,
    pub agreement: Agreement,
}

/// The scores by which hits became candidates.
pub open spec fn fde_scores(hits: Seq<Hit>) -> Seq<Score> {
    hits.map_values(
        |hit: Hit|
            match hit.fde_score {
                Some(score) => score,
                None => 0u32,
            },
    )
}

/// What is said of hits when an explanation is asked for.
pub fn explain_hits(hits: &[Hit]) -> (r: Explanation)
    ensures
        r.top_score == if hits@.len() > 0 {
            hits@[0].score
        } else {
            0u32
        },
        r.second_score == if hits@.len() > 1 {
            hits@[1].score
        } else {
            r.top_score
        },
        r.fde_top_score == if hits@.len() > 0 {
            fde_scores(hits@)[0]
        } else {
            0u32
        },
        hits@.len() <= 1 ==> r.agreement == (Agreement { top_rank: 0, close: 1, total: 1 }),
        hits@.len() > 1 ==> {
            &&& r.agreement.top_rank == place(fde_scores(hits@), 0)
            &&& r.agreement.close == close_hits(fde_scores(hits@), hits@.len())
            &&& r.agreement.total == hits@.len()
        },
{
    let mut scores: Vec<Score> = Vec::with_capacity(hits.len());
    let mut i: usize = 0;
    while i < hits.len()
        invariant
            i <= hits@.len(),
            scores@ == fde_scores(hits@).take(i as int),
        decreases hits@.len() - i,
    {
        scores.push(
            match hits[i].fde_score {
                Some(score) => score,
                None => 0,
            },
        );
        i += 1;
        assert(scores@ =~= fde_scores(hits@).take(i as int));
    }
    assert(scores@ =~= fde_scores(hits@));
    let top_score: Score = if hits.len() > 0 {
        hits[0].score
    } else {
        0
    };
    Explanation {
        top_score,
        second_score: if hits.len() > 1 {
            hits[1].score
        } else {
            top_score
        },
        fde_top_score: if hits.len() > 0 {
            scores[0]
        } else {
            0
        },
        agreement: explain(scores.as_slice()),
    }
}

/// Where every position occurs once in an order, the table of places inverts it.
proof fn lemma_places(sequence: Seq<u64>, places: Seq<usize>)
    requires
        sequence.len() == places.len(),
        sequence.no_duplicates(),
        forall|j: int| 0 <= j < sequence.len() ==> (#[trigger] sequence[j]) < sequence.len(),
        forall|j: int| 0 <= j < sequence.len() ==> places[(#[trigger] sequence[j]) as int] == j,
    ensures
        forall|p: int|
            0 <= p < places.len() ==> (#[trigger] places[p]) < sequence.len() && sequence[places[p] as int] == p,
{
    let n = sequence.len();
    let values = sequence.map_values(|v: u64| v as int);
    assert(values.no_duplicates());
    values.unique_seq_to_set();
    let all = vstd::set_lib::set_int_range(0, n as int);
    vstd::set_lib::lemma_int_range(0, n as int);
    assert(values.to_set().subset_of(all)) by {
        assert forall|x: int| values.to_set().contains(x) implies all.contains(x) by {
            let j = choose|j: int| 0 <= j < values.len() && values[j] == x;
            assert(sequence[j] < n);
        }
    }
    vstd::set_lib::lemma_subset_equality(values.to_set(), all);
    assert forall|p: int| 0 <= p < places.len() implies (#[trigger] places[p]) < sequence.len() && sequence[places[p] as int]
        == p by {
        assert(all.contains(p));
        assert(values.to_set().contains(p));
        let j = choose|j: int| 0 <= j < values.len() && values[j] == p;
        assert(sequence[j] == p);
        assert(places[sequence[j] as int] == j);
    }
}

} // verus!
