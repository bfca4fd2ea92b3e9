//! Queries: candidates by their encodings, then exact scores from the segments.

use vstd::prelude::*;
use crate::arith;
use crate::config;
use crate::config::{IndexError, Reason};
use crate::engine::index::MultiVectorIndex;
use crate::engine::late;
use crate::engine::late::Kernels;
use crate::engine::nearest;
use crate::engine::query::Backend;
use crate::engine::rank;
use crate::engine::rank::{CandidateHit, Hit};
use crate::engine::state;
use crate::engine::state::{AnnView, FdeAnn};
use crate::engine::train;
use crate::error::StorageError;
use crate::hnsw::search;
use crate::hnsw::types::{DBError, ScoredPoint, SearchRuntimeOptions};
use crate::ids::IdSet;
use crate::muvera;
use crate::muvera::FdeEncoder;
use crate::order;
use crate::parallel;
use crate::score::Score;
use crate::storage;
use crate::storage::{CompressedVectorStore, FixedVectorStore, ObjectLocation};

verus! {

/// The segments of an index.
#[derive(Clone, Copy)]
pub struct Segments<'a> {
    /// The compressed documents.
    pub objects: &'a [u8],
    /// The encodings.
    pub fde: &'a [u8],
}

/// Whether a segment holds an encoding at a location.
pub open spec fn is_encoding(fde: Seq<u8>, location: ObjectLocation, dimension: nat, v: Seq<Score>) -> bool {
    &&& storage::record_error(fde.len(), location) is None
    &&& v.len() == dimension
    &&& exists|little: bool| storage::is_image(storage::record(fde, location), v, little)
}

/// Whether this is the product of a query with the encoding at a location.
pub open spec fn is_score<D: Fn(&[Score], &[Score]) -> Score>(
    dot: D,
    query: Seq<Score>,
    fde: Seq<u8>,
    location: ObjectLocation,
    dimension: nat,
    score: Score,
) -> bool {
    exists|v: Seq<Score>| #[trigger] is_encoding(fde, location, dimension, v) && score == arith::measure(dot, query, v)
}

/// Whether reading an encoding at a location may fail in this way.
pub open spec fn is_refused(fde: Seq<u8>, location: ObjectLocation, dimension: nat, e: StorageError) -> bool {
    match storage::record_error(fde.len(), location) {
        Some(x) => e == x,
        None => e == if location.length != 4 * dimension {
            StorageError::FdeLength
        } else {
            StorageError::FdeUnaligned
        },
    }
}

/// Whether these are the products of a query with the encodings at locations, or
/// the failure of reading one of them.
pub open spec fn are_scores<D: Fn(&[Score], &[Score]) -> Score>(
    dot: D,
    query: Seq<Score>,
    fde: Seq<u8>,
    locations: Seq<ObjectLocation>,
    dimension: nat,
    r: Result<Seq<Score>, StorageError>,
) -> bool {
    match r {
        Ok(scores) => {
            &&& scores.len() == locations.len()
            &&& forall|i: int|
                0 <= i < scores.len() ==> is_score(dot, query, fde, locations[i], dimension, #[trigger] scores[i])
        },
        Err(e) => exists|i: int| 0 <= i < locations.len() && is_refused(fde, #[trigger] locations[i], dimension, e),
    }
}

/// Whether a product can be computed.
pub open spec fn ready<D: Fn(&[Score], &[Score]) -> Score>(dot: &D) -> bool {
    arith::is_measure(*dot)
}

/// Whether this is the product of a query with the encoding at a location, or the
/// failure of reading it.
pub open spec fn is_outcome<D: Fn(&[Score], &[Score]) -> Score>(
    dot: &D,
    query: Seq<Score>,
    fde: Seq<u8>,
    location: ObjectLocation,
    dimension: nat,
    r: Result<Score, StorageError>,
) -> bool {
    match r {
        Ok(score) => is_score(*dot, query, fde, location, dimension, score),
        Err(e) => is_refused(fde, location, dimension, e),
    }
}

/// The product of a query with the encoding at a location.
fn score_encoding<D: Fn(&[Score], &[Score]) -> Score>(
    dot: &D,
    query: &[Score],
    fde: &[u8],
    location: ObjectLocation,
    dimension: usize,
) -> (r: Result<Score, StorageError>)
    requires
        arith::is_measure(*dot),
    ensures
        is_outcome(dot, query@, fde@, location, dimension as nat, r),
{
    match FixedVectorStore::get(fde, location, dimension) {
        Ok(v) => {
            assert(is_encoding(fde@, location, dimension as nat, v@));
            Ok(arith::apply_measure(dot, query, v))
        },
        Err(e) => Err(e),
    }
}

/// The products of a query with the encodings at locations.
fn score_encodings<D: Fn(&[Score], &[Score]) -> Score + Sync>(
    dot: &D,
    query: &[Score],
    fde: &[u8],
    locations: &[ObjectLocation],
    dimension: usize,
) -> (r: Result<Vec<Score>, StorageError>)
    requires
        arith::is_measure(*dot),
    ensures
        are_scores(
            *dot,
            query@,
            fde@,
            locations@,
            dimension as nat,
            match r {
                Ok(scores) => Ok(scores@),
                Err(e) => Err(e),
            },
        ),
{
    let f = |i: usize| -> (r: Result<Score, StorageError>)
        requires
            i < locations@.len(),
            ready(dot),
        ensures
            is_outcome(dot, query@, fde@, locations@[i as int], dimension as nat, r),
        { score_encoding(dot, query, fde, locations[i], dimension) };
    let found: Vec<Result<Score, StorageError>> = parallel::par_map(locations.len(), &f);
    let mut scores: Vec<Score> = Vec::with_capacity(found.len());
    let mut i: usize = 0;
    while i < found.len()
        invariant
            i <= found@.len(),
            found@.len() == locations@.len(),
            scores@.len() == i,
            forall|k: int|
                0 <= k < found@.len() ==> is_outcome(dot, query@, fde@, locations@[k], dimension as nat, #[trigger] found@[k]),
            forall|k: int|
                0 <= k < i ==> is_score(*dot, query@, fde@, locations@[k], dimension as nat, #[trigger] scores@[k]),
        decreases found@.len() - i,
    {
        assert(is_outcome(dot, query@, fde@, locations@[i as int], dimension as nat, found@[i as int]));
        match &found[i] {
            Ok(score) => {
                scores.push(*score);
            },
            Err(e) => {
                return Err(*e);
            },
        }
        i += 1;
    }
    Ok(scores)
}

/// A list or the refusal of one, as a mathematical value.
pub open spec fn listed<T>(r: Result<Vec<T>, IndexError>) -> Result<Seq<T>, IndexError> {
    match r {
        Ok(list) => Ok(list@),
        Err(e) => Err(e),
    }
}

/// Where the encodings of an index's documents are, in the order of their ids.
pub open spec fn locations(index: MultiVectorIndex) -> Seq<ObjectLocation> {
    Seq::new(index.state.documents.values@.len(), |i: int| index.state.documents.values@[i].fde_location)
}

/// Where the encodings of documents are.
pub open spec fn locations_of(index: MultiVectorIndex, ids: Seq<Seq<char>>) -> Seq<ObjectLocation> {
    Seq::new(ids.len(), |i: int| index.state@.documents[ids[i]].fde_location)
}

/// Whether this ranks all documents by the products of their encodings with a
/// query, up to `cap`.
pub open spec fn is_exact_ranking<D: Fn(&[Score], &[Score]) -> Score>(
    index: MultiVectorIndex,
    dot: D,
    query: Seq<Score>,
    fde: Seq<u8>,
    cap: Option<usize>,
    r: Result<Seq<(u64, Score)>, IndexError>,
) -> bool {
    let places = locations(index);
    if places.len() == 0 {
        r == Ok::<Seq<(u64, Score)>, IndexError>(Seq::empty())
    } else if fde.len() == 0 {
        r == Err::<Seq<(u64, Score)>, IndexError>(IndexError::Io(StorageError::EmptyFdeSegment))
    } else {
        exists|found: Result<Seq<Score>, StorageError>|
            #[trigger] are_scores(dot, query, fde, places, index.config.encoding_dimension(), found) && r == match found {
                Err(e) => Err::<Seq<(u64, Score)>, IndexError>(IndexError::Io(e)),
                Ok(scores) => Ok(
                    order::ranking(rank::positioned(scores)).take(
                        match cap {
                            Some(k) => rank::at_most(k as int, scores.len()),
                            None => scores.len() as int,
                        },
                    ),
                ),
            }
    }
}

/// What a search for candidates asks of the graph beside the query: a candidate list
/// of this size.
pub open spec fn ann_options(ef: usize) -> SearchRuntimeOptions {
    SearchRuntimeOptions { ef_search: Some(ef), ..search::no_options() }
}

/// How many points a search for `count` candidates asks for: points that no longer
/// stand for a document are asked for on top.
pub open spec fn wanted_points(ann: AnnView, count: usize) -> int {
    rank::at_most(count + state::marks(ann.tombstones), ann.base.len())
}

/// Whether a search over the graph may bring these points; none is made where no
/// point stands for a document.
pub open spec fn is_found<D: Fn(&[Score], &[Score]) -> Score>(
    dot: D,
    ann: AnnView,
    query: Seq<Score>,
    count: usize,
    ef_search: usize,
    points: Seq<ScoredPoint>,
) -> bool {
    if ann.base.len() > state::marks(ann.tombstones) {
        let wanted = wanted_points(ann, count) as usize;
        search::may_answer(
            ann.graph,
            dot,
            query,
            wanted,
            ann_options(
                if ef_search > wanted {
                    ef_search
                } else {
                    wanted
                },
            ),
            points,
        )
    } else {
        points.len() == 0
    }
}

/// Whether this ranks the documents that a search over the graph found together
/// with those written since, up to `count`. A query of another dimension than the
/// graph has is refused where a search is made.
pub open spec fn is_ann_ranking<D: Fn(&[Score], &[Score]) -> Score>(
    index: MultiVectorIndex,
    dot: D,
    query: Seq<Score>,
    fde: Seq<u8>,
    count: usize,
    ef_search: usize,
    r: Result<Seq<(u64, Score)>, IndexError>,
) -> bool {
    match index.state.fde_ann {
        None => r == Err::<Seq<(u64, Score)>, IndexError>(IndexError::Invalid(Reason::AnnMissing)),
        Some(ann) => if ann.generation != index.state.generation {
            r == Err::<Seq<(u64, Score)>, IndexError>(IndexError::Invalid(Reason::AnnStale))
        } else if ann@.base.len() > state::marks(ann@.tombstones) && query.len() != ann.graph.dim {
            r == Err::<Seq<(u64, Score)>, IndexError>(
                IndexError::Invalid(
                    Reason::Search(
                        DBError::VectorLengthMismatch { expected: ann.graph.dim, actual: query.len() as usize },
                    ),
                ),
            )
        } else {
            exists|points: Seq<ScoredPoint>|
                #[trigger] is_found(dot, ann@, query, count, ef_search, points) && is_merged(
                    index,
                    dot,
                    query,
                    fde,
                    count,
                    points,
                    r,
                )
        },
    }
}

/// Whether this ranks the documents of found points together with those written
/// since, up to `count`.
pub open spec fn is_merged<D: Fn(&[Score], &[Score]) -> Score>(
    index: MultiVectorIndex,
    dot: D,
    query: Seq<Score>,
    fde: Seq<u8>,
    count: usize,
    points: Seq<ScoredPoint>,
    r: Result<Seq<(u64, Score)>, IndexError>,
) -> bool {
    let ann = index.state.fde_ann->0;
    if ann.delta.ids().len() > 0 && fde.len() == 0 {
        r == Err::<Seq<(u64, Score)>, IndexError>(IndexError::Io(StorageError::EmptyFdeSegment))
    } else {
        exists|found: Result<Seq<Score>, StorageError>|
            #[trigger] are_scores(
                dot,
                query,
                fde,
                locations_of(index, ann.delta.ids()),
                index.config.encoding_dimension(),
                found,
            ) && r == match found {
                Err(e) => Err::<Seq<(u64, Score)>, IndexError>(IndexError::Io(e)),
                Ok(scores) => {
                    let all = rank::base_scores(index, ann@, points) + rank::delta_candidates(
                        index,
                        ann.delta.ids(),
                        scores,
                    );
                    Ok(order::ranking(all).take(rank::at_most(count as int, all.len())))
                },
            }
    }
}

/// The exact scores of the first candidates.
pub open spec fn exact_scores<
    D: Fn(&[Score], &[Score]) -> Score,
    G: Fn(Score, Score) -> Score,
    A: Fn(Score, Score) -> Score,
>(
    index: MultiVectorIndex,
    dot: D,
    greater: G,
    add: A,
    query: Seq<Seq<Score>>,
    objects: Seq<u8>,
    candidates: Seq<(u64, Score)>,
    count: int,
) -> Seq<Result<Score, StorageError>> {
    Seq::new(
        rank::at_most(count, candidates.len()) as nat,
        |i: int|
            late::stored_score(
                index,
                dot,
                greater,
                add,
                query,
                objects,
                index.state.documents.values@[candidates[i].0 as int].location,
            ),
    )
}

/// Whether these are the hits among the first `count` candidates, or the failure
/// of reading one of them.
pub open spec fn is_rescoring<
    D: Fn(&[Score], &[Score]) -> Score,
    G: Fn(Score, Score) -> Score,
    A: Fn(Score, Score) -> Score,
>(
    index: MultiVectorIndex,
    dot: D,
    greater: G,
    add: A,
    query: Seq<Seq<Score>>,
    objects: Seq<u8>,
    candidates: Seq<(u64, Score)>,
    top_k: usize,
    count: int,
    r: Result<Seq<Hit>, IndexError>,
) -> bool {
    if candidates.len() == 0 {
        r matches Ok(hits) && hits.len() == 0
    } else if objects.len() == 0 {
        r == Err::<Seq<Hit>, IndexError>(IndexError::Io(StorageError::EmptyVectorSegment))
    } else {
        let scores = exact_scores(index, dot, greater, add, query, objects, candidates, count);
        match r {
            Ok(hits) => {
                &&& forall|i: int| 0 <= i < scores.len() ==> (#[trigger] scores[i]) is Ok
                &&& rank::is_hits(
                    index,
                    candidates,
                    Seq::new(scores.len(), |i: int| scores[i]->Ok_0),
                    top_k as int,
                    hits,
                )
            },
            Err(e) => exists|i: int|
                0 <= i < scores.len() && (#[trigger] scores[i]) is Err && e == IndexError::Io(scores[i]->Err_0),
        }
    }
}

/// Whether a candidate's exact score, or the failure of reading it, is this.
pub open spec fn is_stored_score<
    D: Fn(&[Score], &[Score]) -> Score,
    G: Fn(Score, Score) -> Score,
    A: Fn(Score, Score) -> Score,
>(
    index: &MultiVectorIndex,
    dot: &D,
    greater: &G,
    add: &A,
    query: Seq<Seq<Score>>,
    objects: Seq<u8>,
    document: int,
    r: Result<Score, StorageError>,
) -> bool {
    r == late::stored_score(
        *index,
        *dot,
        *greater,
        *add,
        query,
        objects,
        index.state.documents.values@[document].location,
    )
}

/// Whether scores can be computed.
pub open spec fn all_ready<
    D: Fn(&[Score], &[Score]) -> Score,
    G: Fn(Score, Score) -> Score,
    A: Fn(Score, Score) -> Score,
>(dot: &D, greater: &G, add: &A) -> bool {
    arith::is_measure(*dot) && arith::is_binary(*greater) && arith::is_binary(*add)
}

/// Whether candidates name documents.
pub open spec fn are_documents(index: MultiVectorIndex, candidates: Seq<(u64, Score)>) -> bool {
    forall|i: int| 0 <= i < candidates.len() ==> (#[trigger] candidates[i]).0 < index.state.documents.ids().len()
}

impl MultiVectorIndex {
    /// Whether an encoder is that of the index.
    pub open spec fn encodes_with(&self, encoder: FdeEncoder) -> bool {
        &&& encoder.wf()
        &&& encoder.dimension == self.config.dimension
        &&& encoder.ksim == self.config.fde_ksim
        &&& encoder.projected == self.config.fde_projected
        &&& encoder.repetitions@.len() == self.config.fde_repetitions
        &&& encoder.encoding_version == self.fde_encoding_version
    }

    /// Where the encodings of the documents are.
    fn document_locations(&self) -> (r: Vec<ObjectLocation>)
        ensures
            r@ == locations(*self),
    {
        let mut out: Vec<ObjectLocation> = Vec::with_capacity(self.state.documents.values.len());
        let mut i: usize = 0;
        while i < self.state.documents.values.len()
            invariant
                i <= self.state.documents.values@.len(),
                out@ == locations(*self).take(i as int),
            decreases self.state.documents.values@.len() - i,
        {
            out.push(self.state.documents.values[i].fde_location);
            i += 1;
            assert(out@ =~= locations(*self).take(i as int));
        }
        assert(out@ =~= locations(*self));
        out
    }

    /// Ranks all documents by the products of their encodings with a query, up to
    /// `cap`.
    fn exact_fde_scores_capped<D: Fn(&[Score], &[Score]) -> Score + Sync>(
        &self,
        query: &[Score],
        fde: &[u8],
        cap: Option<usize>,
        dot: &D,
    ) -> (r: Result<Vec<(u64, Score)>, IndexError>)
        requires
            self.ok(),
            arith::is_measure(*dot),
        ensures
            is_exact_ranking(*self, *dot, query@, fde@, cap, listed(r)),
            r matches Ok(list) ==> are_documents(*self, list@),
    {
        let places: Vec<ObjectLocation> = self.document_locations();
        if places.len() == 0 {
            let none: Vec<(u64, Score)> = Vec::new();
            assert(none@ =~= Seq::<(u64, Score)>::empty());
            return Ok(none);
        }
        if let Err(e) = FixedVectorStore::map(fde.len() as u64) {
            return Err(IndexError::Io(e));
        }
        let dimension: usize = self.config.output_dimension();
        match score_encodings(dot, query, fde, places.as_slice(), dimension) {
            Ok(scores) => {
                assert(are_scores(
                    *dot,
                    query@,
                    fde@,
                    locations(*self),
                    self.config.encoding_dimension(),
                    Ok::<Seq<Score>, StorageError>(scores@),
                ));
                let ranked: Vec<(u64, Score)> = self.rank_documents(scores.as_slice(), cap);
                proof {
                    order::law_ranking(rank::positioned(scores@));
                    lemma_ranked_documents(*self, rank::positioned(scores@), ranked@.len());
                }
                Ok(ranked)
            },
            Err(e) => {
                assert(are_scores(
                    *dot,
                    query@,
                    fde@,
                    locations(*self),
                    self.config.encoding_dimension(),
                    Err::<Seq<Score>, StorageError>(e),
                ));
                Err(IndexError::Io(e))
            },
        }
    }

    /// The hits among the first candidates.
    ///
    /// They are scored over the threads of the global pool. Where more than one of
    /// their records is damaged, which failure is reported is not stated.
    fn rescore<D, G, A>(
        &self,
        query: &[Vec<Score>],
        objects: &[u8],
        candidates: &[(u64, Score)],
        top_k: usize,
        count: usize,
        dot: &D,
        greater: &G,
        add: &A,
    ) -> (r: Result<Vec<Hit>, IndexError>) where
        D: Fn(&[Score], &[Score]) -> Score + Sync,
        G: Fn(Score, Score) -> Score + Sync,
        A: Fn(Score, Score) -> Score + Sync,

        requires
            self.ok(),
            all_ready(dot, greater, add),
            are_documents(*self, candidates@),
        ensures
            is_rescoring(
                *self,
                *dot,
                *greater,
                *add,
                arith::rows(query@),
                objects@,
                candidates@,
                top_k,
                count as int,
                listed(r),
            ),
    {
        if candidates.len() == 0 {
            return Ok(Vec::new());
        }
        if let Err(e) = CompressedVectorStore::map(objects.len() as u64) {
            return Err(IndexError::Io(e));
        }
        let ghost rows = arith::rows(query@);
        let ghost goal = exact_scores(*self, *dot, *greater, *add, rows, objects@, candidates@, count as int);
        let taken: usize = if count < candidates.len() {
            count
        } else {
            candidates.len()
        };
        let f = |i: usize| -> (r: Result<Score, StorageError>)
            requires
                i < candidates@.len(),
                self.ok(),
                all_ready(dot, greater, add),
                candidates@[i as int].0 < self.state.documents.ids().len(),
            ensures
                is_stored_score(
                    self,
                    dot,
                    greater,
                    add,
                    arith::rows(query@),
                    objects@,
                    candidates@[i as int].0 as int,
                    r,
                ),
            {
                let total: usize = self.state.documents.len();
                assert(candidates@[i as int].0 < total);
                let document: usize = candidates[i].0 as usize;
                self.score_record(query, objects, self.state.documents.values[document].location, dot, greater, add)
            };
        proof {
            assert forall|i: usize| i < taken implies #[trigger] f.requires((i,)) by {
                assert(candidates@[i as int].0 < self.state.documents.ids().len());
            }
        }
        let found: Vec<Result<Score, StorageError>> = parallel::par_map(taken, &f);
        proof {
            assert(found@ =~= goal) by {
                assert forall|i: int| 0 <= i < found@.len() implies #[trigger] found@[i] == goal[i] by {
                    assert(f.ensures((i as usize,), found@[i]));
                }
            }
        }
        let mut scores: Vec<Score> = Vec::with_capacity(taken);
        let mut i: usize = 0;
        while i < found.len()
            invariant
                i <= found@.len(),
                found@ == goal,
                scores@.len() == i,
                forall|k: int| 0 <= k < i ==> (#[trigger] goal[k]) is Ok && scores@[k] == goal[k]->Ok_0,
            ensures
                i < found@.len() ==> goal[i as int] is Err,
            decreases found@.len() - i,
        {
            match &found[i] {
                Ok(score) => {
                    scores.push(*score);
                },
                Err(e) => {
                    break ;
                },
            }
            i += 1;
        }
        if i < found.len() {
            if let Err(e) = &found[i] {
                assert(goal[i as int] is Err);
                return Err(IndexError::Io(*e));
            }
        }
        assert(scores@ =~= Seq::new(goal.len(), |k: int| goal[k]->Ok_0));
        Ok(self.pick_hits(candidates, scores.as_slice(), top_k))
    }

    /// Where the encodings of the documents written since the graph was built are.
    fn delta_locations(&self, delta: &IdSet) -> (r: Vec<ObjectLocation>)
        requires
            self.ok(),
            delta.wf(),
            forall|id: Seq<char>| #[trigger] state::id_set(*delta).contains(id) ==> self.state@.documents.dom().contains(id),
        ensures
            r@ == locations_of(*self, delta.ids()),
    {
        let ghost goal = locations_of(*self, delta.ids());
        let mut out: Vec<ObjectLocation> = Vec::with_capacity(delta.keys.len());
        let mut i: usize = 0;
        while i < delta.keys.len()
            invariant
                self.ok(),
                delta.wf(),
                forall|id: Seq<char>| #[trigger] state::id_set(*delta).contains(id) ==> self.state@.documents.dom().contains(id),
                goal == locations_of(*self, delta.ids()),
                i <= delta.keys@.len(),
                out@ == goal.take(i as int),
            decreases delta.keys@.len() - i,
        {
            proof {
                delta.lemma_entry(i as int);
                assert(state::id_set(*delta).contains(delta.keys@[i as int]@));
            }
            if let Some(record) = self.state.documents.get(delta.keys[i].as_str()) {
                assert(record@ == self.state@.documents[delta.ids()[i as int]]);
                out.push(record.fde_location);
            }
            i += 1;
            assert(out@ =~= goal.take(i as int));
        }
        assert(out@ =~= goal);
        out
    }

    /// Ranks the documents that a search over the graph finds together with those
    /// written since, up to `count`.
    pub fn ann_fde_scores<D>(
        &self,
        query: &[Score],
        fde: &[u8],
        count: usize,
        ef_search: usize,
        dot: &D,
    ) -> (r: Result<Vec<(u64, Score)>, IndexError>) where D: Fn(&[Score], &[Score]) -> Score + Sync
        requires
            self.ok(),
            arith::is_measure(*dot),
        ensures
            is_ann_ranking(*self, *dot, query@, fde@, count, ef_search, listed(r)),
            r matches Ok(list) ==> are_documents(*self, list@),
            self.state@.fde_ann is Some && query@.len() == self.config.encoding_dimension() && nearest::is_current(
                self.config,
                self.state@,
                fde@,
            ) ==> nearest::are_graph_candidates(*self, *dot, query@, fde@, count, listed(r)),
    {
        let r: Result<Vec<(u64, Score)>, IndexError> = self.rank_nearest(query, fde, count, ef_search, dot);
        proof {
            if self.state@.fde_ann is Some && query@.len() == self.config.encoding_dimension() && nearest::is_current(
                self.config,
                self.state@,
                fde@,
            ) {
                nearest::law_graph_candidates(*self, *dot, query@, fde@, count, ef_search, listed(r));
            }
        }
        r
    }

    /// The ranking of the documents that a search over the graph finds together with
    /// those written since.
    fn rank_nearest<D>(
        &self,
        query: &[Score],
        fde: &[u8],
        count: usize,
        ef_search: usize,
        dot: &D,
    ) -> (r: Result<Vec<(u64, Score)>, IndexError>) where D: Fn(&[Score], &[Score]) -> Score + Sync
        requires
            self.ok(),
            arith::is_measure(*dot),
        ensures
            is_ann_ranking(*self, *dot, query@, fde@, count, ef_search, listed(r)),
            r matches Ok(list) ==> are_documents(*self, list@),
    {
        let plan: Option<(usize, usize)> = match self.plan_ann_search(count, ef_search) {
            Ok(plan) => plan,
            Err(e) => {
                return Err(e);
            },
        };
        let ann: &FdeAnn = match &self.state.fde_ann {
            Some(ann) => ann,
            None => {
                return Err(IndexError::Invalid(Reason::AnnMissing));
            },
        };
        let points: Vec<ScoredPoint> = match plan {
            Some((wanted, ef)) => {
                let mut options: SearchRuntimeOptions = SearchRuntimeOptions::default();
                options.ef_search = Some(ef);
                assert(options == ann_options(ef));
                match ann.graph.search_with_options(dot, query, wanted, &options) {
                    Ok(points) => {
                        proof {
                            lemma_known_points(*self, *ann, *dot, query@, wanted, options, points@);
                        }
                        points
                    },
                    Err(e) => {
                        return Err(IndexError::Invalid(Reason::Search(e)));
                    },
                }
            },
            None => Vec::new(),
        };
        assert(is_found(*dot, ann@, query@, count, ef_search, points@));
        if ann.delta.len() > 0 {
            if let Err(e) = FixedVectorStore::map(fde.len() as u64) {
                assert(is_merged(
                    *self,
                    *dot,
                    query@,
                    fde@,
                    count,
                    points@,
                    Err::<Seq<(u64, Score)>, IndexError>(IndexError::Io(e)),
                ));
                return Err(IndexError::Io(e));
            }
        }
        let places: Vec<ObjectLocation> = self.delta_locations(&ann.delta);
        match score_encodings(dot, query, fde, places.as_slice(), self.config.output_dimension()) {
            Ok(scores) => {
                assert(are_scores(
                    *dot,
                    query@,
                    fde@,
                    locations_of(*self, ann.delta.ids()),
                    self.config.encoding_dimension(),
                    Ok::<Seq<Score>, StorageError>(scores@),
                ));
                let ranked: Result<Vec<(u64, Score)>, IndexError> = self.rank_points(
                    points.as_slice(),
                    scores.as_slice(),
                    count,
                );
                proof {
                    let all = rank::base_scores(*self, ann@, points@) + rank::delta_candidates(
                        *self,
                        ann.delta.ids(),
                        scores@,
                    );
                    lemma_base_documents(*self, *ann, points@);
                    lemma_delta_documents(*self, *ann, scores@);
                    assert(are_documents(*self, all));
                    order::law_ranking(all);
                    lemma_ranked_documents(*self, all, ranked->Ok_0@.len());
                    assert(is_merged(*self, *dot, query@, fde@, count, points@, listed(ranked)));
                }
                ranked
            },
            Err(e) => {
                assert(are_scores(
                    *dot,
                    query@,
                    fde@,
                    locations_of(*self, ann.delta.ids()),
                    self.config.encoding_dimension(),
                    Err::<Seq<Score>, StorageError>(e),
                ));
                assert(is_merged(
                    *self,
                    *dot,
                    query@,
                    fde@,
                    count,
                    points@,
                    Err::<Seq<(u64, Score)>, IndexError>(IndexError::Io(e)),
                ));
                Err(IndexError::Io(e))
            },
        }
    }

    /// What the centroids of documents say of candidates.
    fn score_candidates<D, G, A>(&self, query: &[Vec<Score>], candidates: &[(u64, Score)], dot: &D, greater: &G, add: &A) -> (r: Vec<
        Score,
    >) where
        D: Fn(&[Score], &[Score]) -> Score + Sync,
        G: Fn(Score, Score) -> Score + Sync,
        A: Fn(Score, Score) -> Score + Sync,

        requires
            self.ok(),
            all_ready(dot, greater, add),
            are_documents(*self, candidates@),
        ensures
            r@ == centroid_scores(*self, *dot, *greater, *add, arith::rows(query@), candidates@),
    {
        let ghost goal = centroid_scores(*self, *dot, *greater, *add, arith::rows(query@), candidates@);
        let table: Vec<Vec<Score>> = late::multiply_centroids(dot, query, self.state.codebook.as_slice());
        let f = |i: usize| -> (r: Score)
            requires
                i < candidates@.len(),
                self.ok(),
                all_ready(dot, greater, add),
                candidates@[i as int].0 < self.state.documents.ids().len(),
                forall|q: int| 0 <= q < table@.len() ==> (#[trigger] table@[q])@.len() == self.state.codebook@.len(),
            ensures
                is_centroid_score(
                    self,
                    greater,
                    add,
                    arith::rows(table@),
                    candidates@[i as int].0 as int,
                    r,
                ),
            {
                let total: usize = self.state.documents.len();
                assert(candidates@[i as int].0 < total);
                let document: usize = candidates[i].0 as usize;
                proof {
                    lemma_centroids_known(self, document as int);
                }
                late::score_centroids(
                    greater,
                    add,
                    table.as_slice(),
                    self.state.documents.values[document].unique_centroids.as_slice(),
                )
            };
        proof {
            assert forall|i: usize| i < candidates@.len() implies #[trigger] f.requires((i,)) by {
                assert(candidates@[i as int].0 < self.state.documents.ids().len());
            }
        }
        let scores: Vec<Score> = parallel::par_map(candidates.len(), &f);
        proof {
            assert forall|i: int| 0 <= i < scores@.len() implies #[trigger] scores@[i] == goal[i] by {
                assert(f.ensures((i as usize,), scores@[i]));
            }
            assert(scores@ =~= goal);
        }
        scores
    }

    /// Cuts a ranking down to its first `candidates`, and these to the first
    /// `survivors` by what their centroids say.
    fn centroid_prune<D, G, A>(
        &self,
        query: &[Vec<Score>],
        ranked: &[(u64, Score)],
        candidates: usize,
        survivors: usize,
        dot: &D,
        greater: &G,
        add: &A,
    ) -> (r: Vec<(u64, Score)>) where
        D: Fn(&[Score], &[Score]) -> Score + Sync,
        G: Fn(Score, Score) -> Score + Sync,
        A: Fn(Score, Score) -> Score + Sync,

        requires
            self.ok(),
            all_ready(dot, greater, add),
            are_documents(*self, ranked@),
        ensures
            Ok::<Seq<(u64, Score)>, IndexError>(r@) == narrowed(
                *self,
                *dot,
                *greater,
                *add,
                arith::rows(query@),
                Ok::<Seq<(u64, Score)>, IndexError>(ranked@),
                candidates,
                survivors,
            ),
            are_documents(*self, r@),
    {
        let limit: usize = if candidates < ranked.len() {
            candidates
        } else {
            ranked.len()
        };
        let broad: &[(u64, Score)] = vstd::slice::slice_subrange(ranked, 0, limit);
        proof {
            assert(broad@ =~= ranked@.take(rank::at_most(candidates as int, ranked@.len())));
            assert forall|i: int| 0 <= i < broad@.len() implies (#[trigger] broad@[i]).0 < self.state.documents.ids().len() by {
                assert(ranked@[i].0 < self.state.documents.ids().len());
            }
        }
        let scores: Vec<Score> = self.score_candidates(query, broad, dot, greater, add);
        let kept: Vec<(u64, Score)> = self.prune_by(broad, scores.as_slice(), survivors);
        proof {
            let items = rank::rescored(broad@, scores@);
            assert forall|i: int| 0 <= i < items.len() implies (#[trigger] items[i]).0 < self.state.documents.ids().len() by {
                assert(broad@[i].0 < self.state.documents.ids().len());
            }
            order::law_ranking(items);
            lemma_ranked_documents(*self, items, items.len());
            let all = order::ranking(items);
            assert(all.take(items.len() as int) =~= all);
            assert forall|i: int| 0 <= i < kept@.len() implies (#[trigger] kept@[i]).0 < self.state.documents.ids().len() by {
                assert(all[i].0 < self.state.documents.ids().len());
            }
        }
        kept
    }

    /// The hits among the candidates that are left of a ranking when it is cut
    /// down by what their centroids say.
    fn prune_and_rescore<D, G, A>(
        &self,
        query: &[Vec<Score>],
        objects: &[u8],
        ranked: &[(u64, Score)],
        top_k: usize,
        candidates: usize,
        rerank_candidates: usize,
        dot: &D,
        greater: &G,
        add: &A,
    ) -> (r: Result<Vec<Hit>, IndexError>) where
        D: Fn(&[Score], &[Score]) -> Score + Sync,
        G: Fn(Score, Score) -> Score + Sync,
        A: Fn(Score, Score) -> Score + Sync,

        requires
            self.ok(),
            all_ready(dot, greater, add),
            are_documents(*self, ranked@),
        ensures
            is_answer(
                *self,
                *dot,
                *greater,
                *add,
                arith::rows(query@),
                objects@,
                narrowed(
                    *self,
                    *dot,
                    *greater,
                    *add,
                    arith::rows(query@),
                    Ok::<Seq<(u64, Score)>, IndexError>(ranked@),
                    candidates,
                    rerank_candidates,
                ),
                top_k,
                rerank_candidates as int,
                listed(r),
            ),
    {
        let kept: Vec<(u64, Score)> = self.centroid_prune(
            query,
            ranked,
            candidates,
            rerank_candidates,
            dot,
            greater,
            add,
        );
        self.rescore(query, objects, kept.as_slice(), top_k, rerank_candidates, dot, greater, add)
    }

    /// The vectors of a query normalized.
    fn normalize_query<N, D, G, A>(&self, vectors: &[Vec<Score>], kernels: &Kernels<'_, N, D, G, A>) -> (r: Vec<
        Vec<Score>,
    >) where
        N: Fn(&[Score]) -> Vec<Score>,
        D: Fn(&[Score], &[Score]) -> Score + Sync,
        G: Fn(Score, Score) -> Score + Sync,
        A: Fn(Score, Score) -> Score + Sync,

        requires
            self.takes(arith::rows(vectors@)),
            kernels.ok(),
        ensures
            arith::rows(r@) == late::normalized_rows(*kernels.normalize, arith::rows(vectors@)),
            forall|i: int| 0 <= i < r@.len() ==> (#[trigger] r@[i])@.len() == self.config.dimension,
    {
        let unit: Vec<Vec<Score>> = train::normalize_all(kernels.normalize, vectors);
        proof {
            assert(arith::rows(unit@) =~= late::normalized_rows(*kernels.normalize, arith::rows(vectors@)));
            assert forall|i: int| 0 <= i < unit@.len() implies (#[trigger] unit@[i])@.len() == self.config.dimension by {
                assert(arith::rows(vectors@)[i].len() == self.config.dimension);
            }
        }
        unit
    }

    /// The hits of a query: of all documents ranked by their encodings, the best of
    /// the first candidates by their exact scores.
    pub fn query<N, D, G, A>(
        &self,
        vectors: &[Vec<Score>],
        top_k: usize,
        candidates: Option<usize>,
        encoder: &FdeEncoder,
        segments: Segments<'_>,
        kernels: &Kernels<'_, N, D, G, A>,
    ) -> (r: Result<Vec<Hit>, IndexError>) where
        N: Fn(&[Score]) -> Vec<Score>,
        D: Fn(&[Score], &[Score]) -> Score + Sync,
        G: Fn(Score, Score) -> Score + Sync,
        A: Fn(Score, Score) -> Score + Sync,

        requires
            self.ok(),
            self.encodes_with(*encoder),
            kernels.ok(),
        ensures
            is_query(
                *self,
                *kernels,
                *encoder,
                arith::rows(vectors@),
                segments,
                top_k,
                candidates,
                listed(r),
            ),
    {
        let count: usize = match self.check_query(vectors, top_k, candidates) {
            Ok(count) => count,
            Err(e) => {
                return Err(e);
            },
        };
        assert(count == config::candidate_budget(top_k, candidates) as usize);
        let unit: Vec<Vec<Score>> = self.normalize_query(vectors, kernels);
        let query: Vec<Score> = encoder.encode_query(unit.as_slice(), kernels.dot, kernels.add);
        assert(query@ == encoded(*kernels.normalize, *kernels.dot, *kernels.add, *encoder, arith::rows(vectors@)));
        let outcome: Result<Vec<(u64, Score)>, IndexError> = self.exact_fde_scores_capped(
            query.as_slice(),
            segments.fde,
            Some(count),
            kernels.dot,
        );
        let ghost ranking = listed(outcome);
        match outcome {
            Ok(ranked) => self.rescore(
                unit.as_slice(),
                segments.objects,
                ranked.as_slice(),
                top_k,
                count,
                kernels.dot,
                kernels.greater,
                kernels.add,
            ),
            Err(e) => Err(e),
        }
    }

    /// The hits of a query over the graph and the documents written since.
    pub fn query_with_fde_ann<N, D, G, A>(
        &self,
        vectors: &[Vec<Score>],
        top_k: usize,
        candidates: Option<usize>,
        ef_search: usize,
        encoder: &FdeEncoder,
        segments: Segments<'_>,
        kernels: &Kernels<'_, N, D, G, A>,
    ) -> (r: Result<Vec<Hit>, IndexError>) where
        N: Fn(&[Score]) -> Vec<Score>,
        D: Fn(&[Score], &[Score]) -> Score + Sync,
        G: Fn(Score, Score) -> Score + Sync,
        A: Fn(Score, Score) -> Score + Sync,

        requires
            self.ok(),
            self.encodes_with(*encoder),
            kernels.ok(),
        ensures
            is_ann_query(
                *self,
                *kernels,
                *encoder,
                arith::rows(vectors@),
                segments,
                top_k,
                candidates,
                ef_search,
                listed(r),
            ),
    {
        let count: usize = match self.check_ann_query(vectors, top_k, candidates, ef_search) {
            Ok(count) => count,
            Err(e) => {
                return Err(e);
            },
        };
        assert(count == config::candidate_budget(top_k, candidates) as usize);
        let unit: Vec<Vec<Score>> = self.normalize_query(vectors, kernels);
        let query: Vec<Score> = encoder.encode_query(unit.as_slice(), kernels.dot, kernels.add);
        assert(query@ == encoded(*kernels.normalize, *kernels.dot, *kernels.add, *encoder, arith::rows(vectors@)));
        let outcome: Result<Vec<(u64, Score)>, IndexError> = self.ann_fde_scores(
            query.as_slice(),
            segments.fde,
            count,
            ef_search,
            kernels.dot,
        );
        let ghost ranking = listed(outcome);
        match outcome {
            Ok(ranked) => self.rescore(
                unit.as_slice(),
                segments.objects,
                ranked.as_slice(),
                top_k,
                count,
                kernels.dot,
                kernels.greater,
                kernels.add,
            ),
            Err(e) => Err(e),
        }
    }

    /// The hits of a query: of all documents ranked by their encodings, the first
    /// candidates are cut down by what their centroids say, and the best of the
    /// rest are found by their exact scores.
    pub fn query_with_centroid_pruning<N, D, G, A>(
        &self,
        vectors: &[Vec<Score>],
        top_k: usize,
        candidates: usize,
        rerank_candidates: usize,
        encoder: &FdeEncoder,
        segments: Segments<'_>,
        kernels: &Kernels<'_, N, D, G, A>,
    ) -> (r: Result<Vec<Hit>, IndexError>) where
        N: Fn(&[Score]) -> Vec<Score>,
        D: Fn(&[Score], &[Score]) -> Score + Sync,
        G: Fn(Score, Score) -> Score + Sync,
        A: Fn(Score, Score) -> Score + Sync,

        requires
            self.ok(),
            self.encodes_with(*encoder),
            kernels.ok(),
        ensures
            is_pruned_query(
                *self,
                *kernels,
                *encoder,
                arith::rows(vectors@),
                segments,
                top_k,
                candidates,
                rerank_candidates,
                listed(r),
            ),
    {
        if let Err(e) = self.check_pruned_query(vectors, top_k, candidates, rerank_candidates) {
            return Err(e);
        }
        let unit: Vec<Vec<Score>> = self.normalize_query(vectors, kernels);
        let query: Vec<Score> = encoder.encode_query(unit.as_slice(), kernels.dot, kernels.add);
        assert(query@ == encoded(*kernels.normalize, *kernels.dot, *kernels.add, *encoder, arith::rows(vectors@)));
        let outcome: Result<Vec<(u64, Score)>, IndexError> = self.exact_fde_scores_capped(
            query.as_slice(),
            segments.fde,
            Some(candidates),
            kernels.dot,
        );
        let ghost ranking = listed(outcome);
        match outcome {
            Ok(ranked) => self.prune_and_rescore(
                unit.as_slice(),
                segments.objects,
                ranked.as_slice(),
                top_k,
                candidates,
                rerank_candidates,
                kernels.dot,
                kernels.greater,
                kernels.add,
            ),
            Err(e) => Err(e),
        }
    }

    /// The hits of a query over the graph and the documents written since, with
    /// the candidates cut down by what their centroids say.
    pub fn query_with_fde_ann_and_pruning<N, D, G, A>(
        &self,
        vectors: &[Vec<Score>],
        top_k: usize,
        candidates: usize,
        rerank_candidates: usize,
        ef_search: usize,
        encoder: &FdeEncoder,
        segments: Segments<'_>,
        kernels: &Kernels<'_, N, D, G, A>,
    ) -> (r: Result<Vec<Hit>, IndexError>) where
        N: Fn(&[Score]) -> Vec<Score>,
        D: Fn(&[Score], &[Score]) -> Score + Sync,
        G: Fn(Score, Score) -> Score + Sync,
        A: Fn(Score, Score) -> Score + Sync,

        requires
            self.ok(),
            self.encodes_with(*encoder),
            kernels.ok(),
        ensures
            is_pruned_ann_query(
                *self,
                *kernels,
                *encoder,
                arith::rows(vectors@),
                segments,
                top_k,
                candidates,
                rerank_candidates,
                ef_search,
                listed(r),
            ),
    {
        if let Err(e) = self.check_pruned_ann_query(vectors, top_k, candidates, rerank_candidates, ef_search) {
            return Err(e);
        }
        let unit: Vec<Vec<Score>> = self.normalize_query(vectors, kernels);
        let query: Vec<Score> = encoder.encode_query(unit.as_slice(), kernels.dot, kernels.add);
        assert(query@ == encoded(*kernels.normalize, *kernels.dot, *kernels.add, *encoder, arith::rows(vectors@)));
        let outcome: Result<Vec<(u64, Score)>, IndexError> = self.ann_fde_scores(
            query.as_slice(),
            segments.fde,
            candidates,
            ef_search,
            kernels.dot,
        );
        let ghost ranking = listed(outcome);
        match outcome {
            Ok(ranked) => self.prune_and_rescore(
                unit.as_slice(),
                segments.objects,
                ranked.as_slice(),
                top_k,
                candidates,
                rerank_candidates,
                kernels.dot,
                kernels.greater,
                kernels.add,
            ),
            Err(e) => Err(e),
        }
    }

    /// The first documents of the ranking by encodings.
    pub fn exact_fde_candidates<N, D, G, A>(
        &self,
        vectors: &[Vec<Score>],
        count: usize,
        encoder: &FdeEncoder,
        segments: Segments<'_>,
        kernels: &Kernels<'_, N, D, G, A>,
    ) -> (r: Result<Vec<CandidateHit>, IndexError>) where
        N: Fn(&[Score]) -> Vec<Score>,
        D: Fn(&[Score], &[Score]) -> Score + Sync,
        G: Fn(Score, Score) -> Score + Sync,
        A: Fn(Score, Score) -> Score + Sync,

        requires
            self.ok(),
            self.encodes_with(*encoder),
            kernels.ok(),
        ensures
            are_exact_candidates(
                *self,
                *kernels,
                *encoder,
                arith::rows(vectors@),
                segments,
                count,
                listed(r),
            ),
    {
        if let Err(e) = self.check_candidates(vectors, count) {
            return Err(e);
        }
        let unit: Vec<Vec<Score>> = self.normalize_query(vectors, kernels);
        let query: Vec<Score> = encoder.encode_query(unit.as_slice(), kernels.dot, kernels.add);
        assert(query@ == encoded(*kernels.normalize, *kernels.dot, *kernels.add, *encoder, arith::rows(vectors@)));
        let outcome: Result<Vec<(u64, Score)>, IndexError> = self.exact_fde_scores_capped(
            query.as_slice(),
            segments.fde,
            None,
            kernels.dot,
        );
        let ghost ranking = listed(outcome);
        match outcome {
            Ok(ranked) => Ok(self.name_candidates(ranked.as_slice(), count)),
            Err(e) => Err(e),
        }
    }

    /// The first documents of the ranking over the graph and the documents written
    /// since.
    pub fn ann_fde_candidates<N, D, G, A>(
        &self,
        vectors: &[Vec<Score>],
        count: usize,
        ef_search: usize,
        encoder: &FdeEncoder,
        segments: Segments<'_>,
        kernels: &Kernels<'_, N, D, G, A>,
    ) -> (r: Result<Vec<CandidateHit>, IndexError>) where
        N: Fn(&[Score]) -> Vec<Score>,
        D: Fn(&[Score], &[Score]) -> Score + Sync,
        G: Fn(Score, Score) -> Score + Sync,
        A: Fn(Score, Score) -> Score + Sync,

        requires
            self.ok(),
            self.encodes_with(*encoder),
            kernels.ok(),
        ensures
            are_ann_candidates(
                *self,
                *kernels,
                *encoder,
                arith::rows(vectors@),
                segments,
                count,
                ef_search,
                listed(r),
            ),
    {
        if let Err(e) = self.check_ann_candidates(vectors, count, ef_search) {
            return Err(e);
        }
        let unit: Vec<Vec<Score>> = self.normalize_query(vectors, kernels);
        let query: Vec<Score> = encoder.encode_query(unit.as_slice(), kernels.dot, kernels.add);
        assert(query@ == encoded(*kernels.normalize, *kernels.dot, *kernels.add, *encoder, arith::rows(vectors@)));
        let outcome: Result<Vec<(u64, Score)>, IndexError> = self.ann_fde_scores(
            query.as_slice(),
            segments.fde,
            count,
            ef_search,
            kernels.dot,
        );
        let ghost ranking = listed(outcome);
        match outcome {
            Ok(ranked) => Ok(self.name_candidates(ranked.as_slice(), count)),
            Err(e) => Err(e),
        }
    }

    /// The hits of a query over the graph where it covers the current generation,
    /// and over all encodings otherwise, with the name of what was used.
    pub fn query_auto_with_backend<N, D, G, A>(
        &self,
        vectors: &[Vec<Score>],
        top_k: usize,
        candidates: Option<usize>,
        ef_search: usize,
        encoder: &FdeEncoder,
        segments: Segments<'_>,
        kernels: &Kernels<'_, N, D, G, A>,
    ) -> (r: Result<(Vec<Hit>, &'static str), IndexError>) where
        N: Fn(&[Score]) -> Vec<Score>,
        D: Fn(&[Score], &[Score]) -> Score + Sync,
        G: Fn(Score, Score) -> Score + Sync,
        A: Fn(Score, Score) -> Score + Sync,

        requires
            self.ok(),
            self.encodes_with(*encoder),
            kernels.ok(),
        ensures
            is_auto_query(
                *self,
                *kernels,
                *encoder,
                arith::rows(vectors@),
                segments,
                top_k,
                candidates,
                ef_search,
                hits_only(r),
            ),
            r matches Ok(found) ==> found.1@ == self.chosen_backend().text(),
    {
        let count: usize = match self.check_ann_query(vectors, top_k, candidates, ef_search) {
            Ok(count) => count,
            Err(e) => {
                return Err(e);
            },
        };
        assert(count == config::candidate_budget(top_k, candidates) as usize);
        let unit: Vec<Vec<Score>> = self.normalize_query(vectors, kernels);
        let query: Vec<Score> = encoder.encode_query(unit.as_slice(), kernels.dot, kernels.add);
        assert(query@ == encoded(*kernels.normalize, *kernels.dot, *kernels.add, *encoder, arith::rows(vectors@)));
        let backend: Backend = self.auto_backend();
        let outcome: Result<Vec<(u64, Score)>, IndexError> = match backend {
            Backend::Hnsw => self.ann_fde_scores(
                query.as_slice(),
                segments.fde,
                count,
                ef_search,
                kernels.dot,
            ),
            Backend::Muvera => self.exact_fde_scores_capped(query.as_slice(), segments.fde, Some(count), kernels.dot),
        };
        let ghost ranking = listed(outcome);
        let ranked: Vec<(u64, Score)> = match outcome {
            Ok(ranked) => ranked,
            Err(e) => {
                return Err(e);
            },
        };
        match self.rescore(
            unit.as_slice(),
            segments.objects,
            ranked.as_slice(),
            top_k,
            count,
            kernels.dot,
            kernels.greater,
            kernels.add,
        ) {
            Ok(hits) => Ok((hits, backend.name())),
            Err(e) => Err(e),
        }
    }

    /// The hits of a query over the graph where it covers the current generation,
    /// and over all encodings otherwise.
    pub fn query_auto<N, D, G, A>(
        &self,
        vectors: &[Vec<Score>],
        top_k: usize,
        candidates: Option<usize>,
        ef_search: usize,
        encoder: &FdeEncoder,
        segments: Segments<'_>,
        kernels: &Kernels<'_, N, D, G, A>,
    ) -> (r: Result<Vec<Hit>, IndexError>) where
        N: Fn(&[Score]) -> Vec<Score>,
        D: Fn(&[Score], &[Score]) -> Score + Sync,
        G: Fn(Score, Score) -> Score + Sync,
        A: Fn(Score, Score) -> Score + Sync,

        requires
            self.ok(),
            self.encodes_with(*encoder),
            kernels.ok(),
        ensures
            is_auto_query(
                *self,
                *kernels,
                *encoder,
                arith::rows(vectors@),
                segments,
                top_k,
                candidates,
                ef_search,
                listed(r),
            ),
    {
        match self.query_auto_with_backend(
            vectors,
            top_k,
            candidates,
            ef_search,
            encoder,
            segments,
            kernels,
        ) {
            Ok((hits, _)) => Ok(hits),
            Err(e) => Err(e),
        }
    }

    /// The hits of a query: of the documents with a vector near a centroid that a
    /// vector of the query probes, ranked by what their centroids say, the best of
    /// the first candidates by their exact scores.
    pub fn query_with_probes<N, D, G, A>(
        &self,
        vectors: &[Vec<Score>],
        top_k: usize,
        candidates: Option<usize>,
        probes: usize,
        objects: &[u8],
        kernels: &Kernels<'_, N, D, G, A>,
    ) -> (r: Result<Vec<Hit>, IndexError>) where
        N: Fn(&[Score]) -> Vec<Score>,
        D: Fn(&[Score], &[Score]) -> Score + Sync,
        G: Fn(Score, Score) -> Score + Sync,
        A: Fn(Score, Score) -> Score + Sync,

        requires
            self.ok(),
            kernels.ok(),
        ensures
            is_probed_query(
                *self,
                *kernels,
                arith::rows(vectors@),
                objects@,
                top_k,
                candidates,
                probes,
                listed(r),
            ),
    {
        let count: usize = match self.check_query(vectors, top_k, candidates) {
            Ok(count) => count,
            Err(e) => {
                return Err(e);
            },
        };
        let unit: Vec<Vec<Score>> = self.normalize_query(vectors, kernels);
        let table: Vec<Vec<Score>> = late::multiply_centroids(
            kernels.dot,
            unit.as_slice(),
            self.state.codebook.as_slice(),
        );
        let documents: Vec<usize> = match self.probe_documents(table.as_slice(), probes) {
            Ok(documents) => documents,
            Err(e) => {
                return Err(e);
            },
        };
        let mut items: Vec<(u64, Score)> = Vec::with_capacity(documents.len());
        let mut i: usize = 0;
        while i < documents.len()
            invariant
                i <= documents@.len(),
                items@ == unscored(documents@).take(i as int),
            decreases documents@.len() - i,
        {
            items.push((documents[i] as u64, 0));
            i += 1;
            assert(items@ =~= unscored(documents@).take(i as int));
        }
        proof {
            assert(items@ =~= unscored(documents@));
            assert forall|k: int| 0 <= k < items@.len() implies (#[trigger] items@[k]).0 < self.state.documents.ids().len() by {
                assert(documents@.contains(documents@[k]));
            }
        }
        let scores: Vec<Score> = self.score_candidates(
            unit.as_slice(),
            items.as_slice(),
            kernels.dot,
            kernels.greater,
            kernels.add,
        );
        let ranked: Vec<(u64, Score)> = self.rank_rescored(items.as_slice(), scores.as_slice());
        proof {
            let rescored = rank::rescored(items@, scores@);
            assert forall|k: int| 0 <= k < rescored.len() implies (#[trigger] rescored[k]).0 < self.state.documents.ids().len() by {
                assert(items@[k].0 < self.state.documents.ids().len());
            }
            order::law_ranking(rescored);
            lemma_ranked_documents(*self, rescored, rescored.len());
            assert(order::ranking(rescored).take(rescored.len() as int) =~= order::ranking(rescored));
        }
        self.rescore(
            unit.as_slice(),
            objects,
            ranked.as_slice(),
            top_k,
            count,
            kernels.dot,
            kernels.greater,
            kernels.add,
        )
    }

    /// The first of a ranking by name.
    fn name_candidates(&self, ranked: &[(u64, Score)], count: usize) -> (r: Vec<CandidateHit>)
        requires
            self.ok(),
            are_documents(*self, ranked@),
        ensures
            are_named(
                *self,
                Ok::<Seq<(u64, Score)>, IndexError>(ranked@),
                count as int,
                Ok::<Seq<CandidateHit>, IndexError>(r@),
            ),
    {
        let total: usize = self.state.documents.len();
        let limit: usize = if count < ranked.len() {
            count
        } else {
            ranked.len()
        };
        let mut out: Vec<CandidateHit> = Vec::with_capacity(limit);
        let mut i: usize = 0;
        while i < limit
            invariant
                self.ok(),
                are_documents(*self, ranked@),
                total == self.state.documents.ids().len(),
                limit <= ranked@.len(),
                i <= limit,
                out@.len() == i,
                forall|k: int|
                    0 <= k < i ==> (#[trigger] out@[k]).id@ == self.state.documents.ids()[ranked@[k].0 as int]
                        && out@[k].score == ranked@[k].1,
            decreases limit - i,
        {
            assert(ranked@[i as int].0 < total);
            let document: usize = ranked[i].0 as usize;
            out.push(CandidateHit { id: self.state.documents.keys[document].clone(), score: ranked[i].1 });
            i += 1;
        }
        out
    }
}

/// Whether this is what follows from a ranking of candidates: the hits among the
/// first `count` of them, or its refusal.
pub open spec fn is_answer<
    D: Fn(&[Score], &[Score]) -> Score,
    G: Fn(Score, Score) -> Score,
    A: Fn(Score, Score) -> Score,
>(
    index: MultiVectorIndex,
    dot: D,
    greater: G,
    add: A,
    query: Seq<Seq<Score>>,
    objects: Seq<u8>,
    ranking: Result<Seq<(u64, Score)>, IndexError>,
    top_k: usize,
    count: int,
    r: Result<Seq<Hit>, IndexError>,
) -> bool {
    match ranking {
        Err(e) => r == Err::<Seq<Hit>, IndexError>(e),
        Ok(candidates) => is_rescoring(index, dot, greater, add, query, objects, candidates, top_k, count, r),
    }
}

/// The encoding of a query.
pub open spec fn encoded<
    N: Fn(&[Score]) -> Vec<Score>,
    D: Fn(&[Score], &[Score]) -> Score,
    A: Fn(Score, Score) -> Score,
>(normalize: N, dot: D, add: A, encoder: FdeEncoder, query: Seq<Seq<Score>>) -> Seq<Score> {
    muvera::query_encoding(dot, add, encoder, late::normalized_rows(normalize, query), encoder.repetitions@.len())
}

/// What the centroids of documents say of candidates.
pub open spec fn centroid_scores<
    D: Fn(&[Score], &[Score]) -> Score,
    G: Fn(Score, Score) -> Score,
    A: Fn(Score, Score) -> Score,
>(
    index: MultiVectorIndex,
    dot: D,
    greater: G,
    add: A,
    query: Seq<Seq<Score>>,
    candidates: Seq<(u64, Score)>,
) -> Seq<Score> {
    let table = late::centroid_products(dot, query, index.state@.codebook);
    Seq::new(
        candidates.len(),
        |i: int|
            late::centroid_score(
                greater,
                add,
                table,
                index.state.documents.values@[candidates[i].0 as int].unique_centroids@,
            ),
    )
}

/// A ranking of candidates cut down: its first `candidates`, and of these the
/// first `survivors` by what their centroids say.
pub open spec fn narrowed<
    D: Fn(&[Score], &[Score]) -> Score,
    G: Fn(Score, Score) -> Score,
    A: Fn(Score, Score) -> Score,
>(
    index: MultiVectorIndex,
    dot: D,
    greater: G,
    add: A,
    query: Seq<Seq<Score>>,
    ranking: Result<Seq<(u64, Score)>, IndexError>,
    candidates: usize,
    survivors: usize,
) -> Result<Seq<(u64, Score)>, IndexError> {
    match ranking {
        Err(e) => Err(e),
        Ok(list) => {
            let broad = list.take(rank::at_most(candidates as int, list.len()));
            Ok(
                rank::pruned(
                    broad,
                    centroid_scores(index, dot, greater, add, query, broad),
                    survivors as int,
                ),
            )
        },
    }
}

/// Documents with the same score each.
pub open spec fn unscored(documents: Seq<usize>) -> Seq<(u64, Score)> {
    documents.map_values(|d: usize| (d as u64, 0u32))
}

/// Whether these are the first `count` candidates of a ranking by name.
pub open spec fn are_named(
    index: MultiVectorIndex,
    ranking: Result<Seq<(u64, Score)>, IndexError>,
    count: int,
    r: Result<Seq<CandidateHit>, IndexError>,
) -> bool {
    match ranking {
        Err(e) => r == Err::<Seq<CandidateHit>, IndexError>(e),
        Ok(list) => r matches Ok(hits) && hits.len() == rank::at_most(count, list.len()) && forall|i: int|
            0 <= i < hits.len() ==> (#[trigger] hits[i]).id@ == index.state.documents.ids()[list[i].0 as int]
                && hits[i].score == list[i].1,
    }
}

/// Whether these are the hits of a query: of all documents ranked by their
/// encodings, the best of the first candidates by their exact scores.
pub open spec fn is_query<N, D, G, A>(
    index: MultiVectorIndex,
    kernels: Kernels<'_, N, D, G, A>,
    encoder: FdeEncoder,
    vectors: Seq<Seq<Score>>,
    segments: Segments<'_>,
    top_k: usize,
    candidates: Option<usize>,
    r: Result<Seq<Hit>, IndexError>,
) -> bool where
    N: Fn(&[Score]) -> Vec<Score>,
    D: Fn(&[Score], &[Score]) -> Score,
    G: Fn(Score, Score) -> Score,
    A: Fn(Score, Score) -> Score,
 {
    if !index.takes(vectors) {
        r == Err::<Seq<Hit>, IndexError>(IndexError::Invalid(Reason::Vectors(index.config.dimension)))
    } else if top_k == 0 {
        r == Err::<Seq<Hit>, IndexError>(IndexError::Invalid(Reason::TopK))
    } else {
        exists|ranking: Result<Seq<(u64, Score)>, IndexError>|
            #[trigger] is_exact_ranking(
                index,
                *kernels.dot,
                encoded(*kernels.normalize, *kernels.dot, *kernels.add, encoder, vectors),
                segments.fde@,
                Some(config::candidate_budget(top_k, candidates) as usize),
                ranking,
            ) && is_answer(
                index,
                *kernels.dot,
                *kernels.greater,
                *kernels.add,
                late::normalized_rows(*kernels.normalize, vectors),
                segments.objects@,
                ranking,
                top_k,
                config::candidate_budget(top_k, candidates),
                r,
            )
    }
}

/// Whether these are the hits of a query over the graph and the documents written
/// since.
pub open spec fn is_ann_query<N, D, G, A>(
    index: MultiVectorIndex,
    kernels: Kernels<'_, N, D, G, A>,
    encoder: FdeEncoder,
    vectors: Seq<Seq<Score>>,
    segments: Segments<'_>,
    top_k: usize,
    candidates: Option<usize>,
    ef_search: usize,
    r: Result<Seq<Hit>, IndexError>,
) -> bool where
    N: Fn(&[Score]) -> Vec<Score>,
    D: Fn(&[Score], &[Score]) -> Score,
    G: Fn(Score, Score) -> Score,
    A: Fn(Score, Score) -> Score,
 {
    if !index.takes(vectors) {
        r == Err::<Seq<Hit>, IndexError>(IndexError::Invalid(Reason::Vectors(index.config.dimension)))
    } else if top_k == 0 || ef_search == 0 {
        r == Err::<Seq<Hit>, IndexError>(IndexError::Invalid(Reason::TopKAndEf))
    } else {
        exists|ranking: Result<Seq<(u64, Score)>, IndexError>|
            #[trigger] is_ann_ranking(
                index,
                *kernels.dot,
                encoded(*kernels.normalize, *kernels.dot, *kernels.add, encoder, vectors),
                segments.fde@,
                config::candidate_budget(top_k, candidates) as usize,
                ef_search,
                ranking,
            ) && is_answer(
                index,
                *kernels.dot,
                *kernels.greater,
                *kernels.add,
                late::normalized_rows(*kernels.normalize, vectors),
                segments.objects@,
                ranking,
                top_k,
                config::candidate_budget(top_k, candidates),
                r,
            )
    }
}

/// Whether these are the hits of a query whose candidates by encodings are cut down
/// by what their centroids say.
pub open spec fn is_pruned_query<N, D, G, A>(
    index: MultiVectorIndex,
    kernels: Kernels<'_, N, D, G, A>,
    encoder: FdeEncoder,
    vectors: Seq<Seq<Score>>,
    segments: Segments<'_>,
    top_k: usize,
    candidates: usize,
    rerank_candidates: usize,
    r: Result<Seq<Hit>, IndexError>,
) -> bool where
    N: Fn(&[Score]) -> Vec<Score>,
    D: Fn(&[Score], &[Score]) -> Score,
    G: Fn(Score, Score) -> Score,
    A: Fn(Score, Score) -> Score,
 {
    if !index.takes(vectors) {
        r == Err::<Seq<Hit>, IndexError>(IndexError::Invalid(Reason::Vectors(index.config.dimension)))
    } else if !(0 < top_k <= rerank_candidates <= candidates) {
        r == Err::<Seq<Hit>, IndexError>(IndexError::Invalid(Reason::Pruning))
    } else {
        exists|ranking: Result<Seq<(u64, Score)>, IndexError>|
            #[trigger] is_exact_ranking(
                index,
                *kernels.dot,
                encoded(*kernels.normalize, *kernels.dot, *kernels.add, encoder, vectors),
                segments.fde@,
                Some(candidates),
                ranking,
            ) && is_answer(
                index,
                *kernels.dot,
                *kernels.greater,
                *kernels.add,
                late::normalized_rows(*kernels.normalize, vectors),
                segments.objects@,
                narrowed(
                    index,
                    *kernels.dot,
                    *kernels.greater,
                    *kernels.add,
                    late::normalized_rows(*kernels.normalize, vectors),
                    ranking,
                    candidates,
                    rerank_candidates,
                ),
                top_k,
                rerank_candidates as int,
                r,
            )
    }
}

/// Whether these are the hits of a query over the graph whose candidates are cut
/// down by what their centroids say.
pub open spec fn is_pruned_ann_query<N, D, G, A>(
    index: MultiVectorIndex,
    kernels: Kernels<'_, N, D, G, A>,
    encoder: FdeEncoder,
    vectors: Seq<Seq<Score>>,
    segments: Segments<'_>,
    top_k: usize,
    candidates: usize,
    rerank_candidates: usize,
    ef_search: usize,
    r: Result<Seq<Hit>, IndexError>,
) -> bool where
    N: Fn(&[Score]) -> Vec<Score>,
    D: Fn(&[Score], &[Score]) -> Score,
    G: Fn(Score, Score) -> Score,
    A: Fn(Score, Score) -> Score,
 {
    if !index.takes(vectors) {
        r == Err::<Seq<Hit>, IndexError>(IndexError::Invalid(Reason::Vectors(index.config.dimension)))
    } else if ef_search == 0 {
        r == Err::<Seq<Hit>, IndexError>(IndexError::Invalid(Reason::Ef))
    } else if !(0 < top_k <= rerank_candidates <= candidates) {
        r == Err::<Seq<Hit>, IndexError>(IndexError::Invalid(Reason::Pruning))
    } else {
        exists|ranking: Result<Seq<(u64, Score)>, IndexError>|
            #[trigger] is_ann_ranking(
                index,
                *kernels.dot,
                encoded(*kernels.normalize, *kernels.dot, *kernels.add, encoder, vectors),
                segments.fde@,
                candidates,
                ef_search,
                ranking,
            ) && is_answer(
                index,
                *kernels.dot,
                *kernels.greater,
                *kernels.add,
                late::normalized_rows(*kernels.normalize, vectors),
                segments.objects@,
                narrowed(
                    index,
                    *kernels.dot,
                    *kernels.greater,
                    *kernels.add,
                    late::normalized_rows(*kernels.normalize, vectors),
                    ranking,
                    candidates,
                    rerank_candidates,
                ),
                top_k,
                rerank_candidates as int,
                r,
            )
    }
}

/// Whether these are the first documents of the ranking by encodings.
pub open spec fn are_exact_candidates<N, D, G, A>(
    index: MultiVectorIndex,
    kernels: Kernels<'_, N, D, G, A>,
    encoder: FdeEncoder,
    vectors: Seq<Seq<Score>>,
    segments: Segments<'_>,
    count: usize,
    r: Result<Seq<CandidateHit>, IndexError>,
) -> bool where
    N: Fn(&[Score]) -> Vec<Score>,
    D: Fn(&[Score], &[Score]) -> Score,
    G: Fn(Score, Score) -> Score,
    A: Fn(Score, Score) -> Score,
 {
    if !index.takes(vectors) {
        r == Err::<Seq<CandidateHit>, IndexError>(IndexError::Invalid(Reason::Vectors(index.config.dimension)))
    } else if count == 0 {
        r == Err::<Seq<CandidateHit>, IndexError>(IndexError::Invalid(Reason::CandidateCount))
    } else {
        exists|ranking: Result<Seq<(u64, Score)>, IndexError>|
            #[trigger] is_exact_ranking(
                index,
                *kernels.dot,
                encoded(*kernels.normalize, *kernels.dot, *kernels.add, encoder, vectors),
                segments.fde@,
                None,
                ranking,
            ) && are_named(index, ranking, count as int, r)
    }
}

/// Whether these are the first documents of the ranking over the graph and the
/// documents written since.
pub open spec fn are_ann_candidates<N, D, G, A>(
    index: MultiVectorIndex,
    kernels: Kernels<'_, N, D, G, A>,
    encoder: FdeEncoder,
    vectors: Seq<Seq<Score>>,
    segments: Segments<'_>,
    count: usize,
    ef_search: usize,
    r: Result<Seq<CandidateHit>, IndexError>,
) -> bool where
    N: Fn(&[Score]) -> Vec<Score>,
    D: Fn(&[Score], &[Score]) -> Score,
    G: Fn(Score, Score) -> Score,
    A: Fn(Score, Score) -> Score,
 {
    if !index.takes(vectors) {
        r == Err::<Seq<CandidateHit>, IndexError>(IndexError::Invalid(Reason::Vectors(index.config.dimension)))
    } else if count == 0 || ef_search == 0 {
        r == Err::<Seq<CandidateHit>, IndexError>(IndexError::Invalid(Reason::CandidateCountAndEf))
    } else {
        exists|ranking: Result<Seq<(u64, Score)>, IndexError>|
            #[trigger] is_ann_ranking(
                index,
                *kernels.dot,
                encoded(*kernels.normalize, *kernels.dot, *kernels.add, encoder, vectors),
                segments.fde@,
                count,
                ef_search,
                ranking,
            ) && are_named(index, ranking, count as int, r)
    }
}

/// Whether these are the hits of a query over the graph where it covers the current
/// generation, and over all encodings otherwise.
pub open spec fn is_auto_query<N, D, G, A>(
    index: MultiVectorIndex,
    kernels: Kernels<'_, N, D, G, A>,
    encoder: FdeEncoder,
    vectors: Seq<Seq<Score>>,
    segments: Segments<'_>,
    top_k: usize,
    candidates: Option<usize>,
    ef_search: usize,
    r: Result<Seq<Hit>, IndexError>,
) -> bool where
    N: Fn(&[Score]) -> Vec<Score>,
    D: Fn(&[Score], &[Score]) -> Score,
    G: Fn(Score, Score) -> Score,
    A: Fn(Score, Score) -> Score,
 {
    if index.chosen_backend() is Muvera && index.takes(vectors) && top_k > 0 && ef_search > 0 {
        is_query(index, kernels, encoder, vectors, segments, top_k, candidates, r)
    } else {
        is_ann_query(index, kernels, encoder, vectors, segments, top_k, candidates, ef_search, r)
    }
}

/// Whether these are the hits of a query: of the documents with a vector near a
/// centroid that a vector of the query probes, ranked by what their centroids say,
/// the best of the first candidates by their exact scores.
pub open spec fn is_probed_query<N, D, G, A>(
    index: MultiVectorIndex,
    kernels: Kernels<'_, N, D, G, A>,
    vectors: Seq<Seq<Score>>,
    objects: Seq<u8>,
    top_k: usize,
    candidates: Option<usize>,
    probes: usize,
    r: Result<Seq<Hit>, IndexError>,
) -> bool where
    N: Fn(&[Score]) -> Vec<Score>,
    D: Fn(&[Score], &[Score]) -> Score,
    G: Fn(Score, Score) -> Score,
    A: Fn(Score, Score) -> Score,
 {
    let unit = late::normalized_rows(*kernels.normalize, vectors);
    if !index.takes(vectors) {
        r == Err::<Seq<Hit>, IndexError>(IndexError::Invalid(Reason::Vectors(index.config.dimension)))
    } else if top_k == 0 {
        r == Err::<Seq<Hit>, IndexError>(IndexError::Invalid(Reason::TopK))
    } else if index.state@.codebook.len() == 0 {
        r == Err::<Seq<Hit>, IndexError>(IndexError::Invalid(Reason::Untrained))
    } else {
        exists|documents: Seq<usize>|
            #[trigger] rank::is_reached(
                index,
                late::centroid_products(*kernels.dot, unit, index.state@.codebook),
                probes as int,
                documents,
            ) && is_rescoring(
                index,
                *kernels.dot,
                *kernels.greater,
                *kernels.add,
                unit,
                objects,
                order::ranking(
                    rank::rescored(
                        unscored(documents),
                        centroid_scores(
                            index,
                            *kernels.dot,
                            *kernels.greater,
                            *kernels.add,
                            unit,
                            unscored(documents),
                        ),
                    ),
                ),
                top_k,
                config::candidate_budget(top_k, candidates),
                r,
            )
    }
}

/// Whether a document's centroids give this score.
pub open spec fn is_centroid_score<G: Fn(Score, Score) -> Score, A: Fn(Score, Score) -> Score>(
    index: &MultiVectorIndex,
    greater: &G,
    add: &A,
    table: Seq<Seq<Score>>,
    document: int,
    r: Score,
) -> bool {
    r == late::centroid_score(*greater, *add, table, index.state.documents.values@[document].unique_centroids@)
}

/// The hits of an answer that also names what was used.
pub open spec fn hits_only(r: Result<(Vec<Hit>, &str), IndexError>) -> Result<Seq<Hit>, IndexError> {
    match r {
        Ok(found) => Ok(found.0@),
        Err(e) => Err(e),
    }
}

/// The centroids of a document are of the codebook.
proof fn lemma_centroids_known(index: &MultiVectorIndex, document: int)
    requires
        index.ok(),
        0 <= document < index.state.documents.ids().len(),
    ensures
        forall|k: int|
            0 <= k < index.state.documents.values@[document].unique_centroids@.len() ==> (
            #[trigger] index.state.documents.values@[document].unique_centroids@[k]) < index.state@.codebook.len(),
{
    index.state.documents.lemma_entry(document);
    let id = index.state.documents.ids()[document];
    let record = index.state@.documents[id];
    assert(index.state@.documents.dom().contains(id));
    assert(state::record_fits(record, index.state@.codebook.len()));
    let unique = record.unique_centroids;
    assert forall|k: int| 0 <= k < unique.len() implies (#[trigger] unique[k]) < index.state@.codebook.len() by {
        assert(unique.contains(unique[k]));
        assert(record.centroid_ids.contains(unique[k]));
        let m = choose|m: int| 0 <= m < record.centroid_ids.len() && record.centroid_ids[m] == unique[k];
        assert(record.centroid_ids[m] < index.state@.codebook.len());
    }
}

/// A search names points of the graph.
proof fn lemma_known_points<D: Fn(&[Score], &[Score]) -> Score>(
    index: MultiVectorIndex,
    ann: FdeAnn,
    dot: D,
    query: Seq<Score>,
    wanted: usize,
    options: SearchRuntimeOptions,
    points: Seq<ScoredPoint>,
)
    requires
        index.ok(),
        index.state.fde_ann == Some(ann),
        search::may_answer(*ann.graph, dot, query, wanted, options, points),
    ensures
        rank::known_points(ann@, points),
{
    assert forall|i: int| 0 <= i < points.len() implies (#[trigger] points[i]).id < ann@.base.len() by {
        search::law_found_points(*ann.graph, dot, query, wanted, options, points, i);
        let node = ann.graph.node_of(points[i].id)->0;
        assert(ann.graph.ids@[node] == points[i].id);
    }
}

proof fn lemma_base_documents(index: MultiVectorIndex, ann: FdeAnn, points: Seq<ScoredPoint>)
    requires
        index.ok(),
        index.state.fde_ann == Some(ann),
    ensures
        are_documents(index, rank::base_scores(index, ann@, points)),
    decreases points.len(),
{
    if points.len() > 0 {
        lemma_base_documents(index, ann, points.drop_last());
        let point = points.last();
        if ann@.live(point.id as int) {
            let k = index.state.documents.lemma_position(ann@.base[point.id as int]);
            lemma_index_fits(index, ann@.base[point.id as int]);
        }
    }
}

proof fn lemma_delta_documents(index: MultiVectorIndex, ann: FdeAnn, scores: Seq<Score>)
    requires
        index.ok(),
        index.state.fde_ann == Some(ann),
        scores.len() == ann.delta.ids().len(),
    ensures
        are_documents(index, rank::delta_candidates(index, ann.delta.ids(), scores)),
{
    let list = rank::delta_candidates(index, ann.delta.ids(), scores);
    assert forall|i: int| 0 <= i < list.len() implies (#[trigger] list[i]).0 < index.state.documents.ids().len() by {
        ann.delta.lemma_entry(i);
        assert(ann@.delta.contains(ann.delta.ids()[i]));
        lemma_index_fits(index, ann.delta.ids()[i]);
    }
}

proof fn lemma_index_fits(index: MultiVectorIndex, id: Seq<char>)
    requires
        index.ok(),
        index.state@.documents.dom().contains(id),
    ensures
        (index.state.documents.index_of(id) as u64) < index.state.documents.ids().len(),
{
    let k = index.state.documents.lemma_position(id);
    index.state.documents.lemma_entry(k);
    assert(index.state.documents.keys.len() == index.state.documents.ids().len());
}

/// What a ranking of documents lists are documents.
proof fn lemma_ranked_documents(index: MultiVectorIndex, items: Seq<(u64, Score)>, n: nat)
    requires
        are_documents(index, items),
        n <= items.len(),
    ensures
        are_documents(index, order::ranking(items).take(n as int)),
{
    order::law_ranking(items);
    let all = order::ranking(items);
    let ranked = all.take(n as int);
    assert forall|i: int| 0 <= i < ranked.len() implies (#[trigger] ranked[i]).0 < index.state.documents.ids().len() by {
        assert(all.contains(all[i]));
        assert(items.contains(ranked[i]));
        let m = choose|m: int| 0 <= m < items.len() && items[m] == ranked[i];
        assert(items[m].0 < index.state.documents.ids().len());
    }
}

} // verus!
