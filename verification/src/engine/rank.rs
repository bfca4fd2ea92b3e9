//! Rankings of the documents of an index, from scores that the caller computes.
//!
//! A ranking names a document by its position in the order of ids, so that the
//! smaller position is the smaller id.

use vstd::prelude::*;
use crate::arith;
use crate::config;
use crate::config::{IndexError, Reason};
use crate::engine::index::MultiVectorIndex;
use crate::engine::state;
use crate::engine::state::{AnnView, DocumentRecord, FdeAnn};
use crate::hnsw::types::ScoredPoint;
use crate::ids;
use crate::order;
use crate::score;
use crate::score::Score;

verus! {

/// A document that a query found.
pub struct Hit {
    pub id: String,
    pub score: Score,
    /// The score by which it became a candidate.
    pub fde_score: Option<Score>,
    /// The caller's metadata, as JSON text.
    pub metadata: String,
}

/// A document that became a candidate.
pub struct CandidateHit {
    pub id: String,
    pub score: Score,
}

/// Figures of an index.
#[derive(Clone, Copy, Debug, PartialEq, Eq, Structural)]
pub struct IndexStats {
    pub documents: usize,
    pub generation: u64,
    pub token_vectors: usize,
    pub compressed_bytes: u64,
    pub centroids: usize,
    pub residual_bits: u8,
    pub trained: bool,
    pub fde_dimension: usize,
    pub fde_ann_nodes: usize,
    pub fde_ann_base_nodes: usize,
    pub fde_ann_delta_documents: usize,
    pub fde_ann_tombstones: usize,
    pub fde_encoding_version: u32,
}

/// Each score with its position.
pub open spec fn positioned(scores: Seq<Score>) -> Seq<(u64, Score)> {
    Seq::new(scores.len(), |i: int| (i as u64, scores[i]))
}

/// Each candidate with another score.
pub open spec fn rescored(candidates: Seq<(u64, Score)>, scores: Seq<Score>) -> Seq<(u64, Score)> {
    Seq::new(scores.len(), |i: int| (candidates[i].0, scores[i]))
}

/// The smaller of a limit and a length.
pub open spec fn at_most(limit: int, len: nat) -> int {
    if limit < len {
        limit
    } else {
        len as int
    }
}

/// The score with which a document first occurs among candidates.
pub open spec fn first_score(candidates: Seq<(u64, Score)>, document: u64) -> Score
    decreases candidates.len(),
{
    if candidates.len() == 0 {
        0
    } else if candidates[0].0 == document {
        candidates[0].1
    } else {
        first_score(candidates.drop_first(), document)
    }
}

fn first_score_of(candidates: &[(u64, Score)], document: u64) -> (r: Score)
    ensures
        r == first_score(candidates@, document),
{
    let mut i: usize = 0;
    assert(candidates@.skip(0) =~= candidates@);
    while i < candidates.len()
        invariant
            i <= candidates@.len(),
            first_score(candidates@, document) == first_score(candidates@.skip(i as int), document),
        decreases candidates@.len() - i,
    {
        if candidates[i].0 == document {
            return candidates[i].1;
        }
        assert(candidates@.skip(i as int).drop_first() =~= candidates@.skip(i + 1));
        i += 1;
    }
    0
}

fn with_positions(scores: &[Score]) -> (r: Vec<(u64, Score)>)
    ensures
        r@ == positioned(scores@),
{
    let mut out: Vec<(u64, Score)> = Vec::with_capacity(scores.len());
    let mut i: usize = 0;
    while i < scores.len()
        invariant
            i <= scores@.len(),
            out@ == positioned(scores@).take(i as int),
        decreases scores@.len() - i,
    {
        out.push((i as u64, scores[i]));
        i += 1;
    }
    assert(out@ =~= positioned(scores@));
    out
}

fn with_scores(candidates: &[(u64, Score)], scores: &[Score]) -> (r: Vec<(u64, Score)>)
    requires
        scores@.len() <= candidates@.len(),
    ensures
        r@ == rescored(candidates@, scores@),
{
    let mut out: Vec<(u64, Score)> = Vec::with_capacity(scores.len());
    let mut i: usize = 0;
    while i < scores.len()
        invariant
            i <= scores@.len(),
            scores@.len() <= candidates@.len(),
            out@ == rescored(candidates@, scores@).take(i as int),
        decreases scores@.len() - i,
    {
        out.push((candidates[i].0, scores[i]));
        i += 1;
    }
    assert(out@ =~= rescored(candidates@, scores@));
    out
}

/// The candidates that other scores rank first, each with the score that it had.
pub open spec fn pruned(candidates: Seq<(u64, Score)>, scores: Seq<Score>, survivors: int) -> Seq<(u64, Score)> {
    Seq::new(
        at_most(survivors, candidates.len()) as nat,
        |i: int|
            {
                let document = order::ranking(rescored(candidates, scores))[i].0;
                (document, first_score(candidates, document))
            },
    )
}

/// Whether these are the hits among candidates of which the first were scored
/// exactly: the best by those scores, each with the score by which it became a
/// candidate.
pub open spec fn is_hits(
    index: MultiVectorIndex,
    candidates: Seq<(u64, Score)>,
    scores: Seq<Score>,
    top_k: int,
    hits: Seq<Hit>,
) -> bool {
    &&& hits.len() == at_most(top_k, scores.len())
    &&& forall|i: int|
        0 <= i < hits.len() ==> {
            let best = order::ranking(rescored(candidates, scores))[i];
            &&& (#[trigger] hits[i]).id@ == index.state.documents.ids()[best.0 as int]
            &&& hits[i].score == best.1
            &&& hits[i].fde_score == Some(first_score(candidates, best.0))
            &&& hits[i].metadata@ == index.state@.documents[hits[i].id@].metadata
        }
}

/// Hits stand in the order of their scores, the best first; of hits with the same
/// score the one with the smaller id comes first.
pub proof fn law_hits_are_ordered(
    index: MultiVectorIndex,
    candidates: Seq<(u64, Score)>,
    scores: Seq<Score>,
    top_k: int,
    hits: Seq<Hit>,
    i: int,
    j: int,
)
    requires
        index.ok(),
        is_hits(index, candidates, scores, top_k, hits),
        scores.len() <= candidates.len(),
        forall|k: int| 0 <= k < candidates.len() ==> (#[trigger] candidates[k]).0 < index.state.documents.ids().len(),
        0 <= i < j < hits.len(),
    ensures
        score::total_key(hits[i].score) >= score::total_key(hits[j].score),
        hits[i].score == hits[j].score ==> hits[i].id@ == hits[j].id@ || ids::id_less(hits[i].id@, hits[j].id@),
{
    let items = rescored(candidates, scores);
    let best = order::ranking(items);
    order::law_ranking(items);
    assert(order::ranks_before(best[i], best[j]));
    assert(hits[i].id@ == index.state.documents.ids()[best[i].0 as int]);
    assert(hits[j].id@ == index.state.documents.ids()[best[j].0 as int]);
    if hits[i].score == hits[j].score && best[i].0 != best[j].0 {
        assert(best[i].0 < best[j].0);
        assert(best.contains(best[j]));
        assert(items.contains(best[j]));
        let m = choose|m: int| 0 <= m < items.len() && items[m] == best[j];
        assert(candidates[m].0 < index.state.documents.ids().len());
    }
}

/// Whether these are the documents with a vector near a centroid that some row
/// probes, in the order of their ids.
pub open spec fn is_reached(
    index: MultiVectorIndex,
    interaction: Seq<Seq<Score>>,
    probes: int,
    documents: Seq<usize>,
) -> bool {
    &&& forall|i: int, j: int| 0 <= i < j < documents.len() ==> #[trigger] documents[i] < #[trigger] documents[j]
    &&& forall|document: usize|
        #[trigger] documents.contains(document) <==> document < index.state.documents.ids().len() && reached(
            index,
            interaction,
            probes,
            document as int,
        )
}

/// The scores that the points of a graph give to documents: each point that
/// stands for a document, with that document's position and the key of the point
/// negated.
pub open spec fn base_scores(index: MultiVectorIndex, ann: AnnView, points: Seq<ScoredPoint>) -> Seq<(u64, Score)>
    decreases points.len(),
{
    if points.len() == 0 {
        Seq::empty()
    } else {
        let point = points.last();
        let before = base_scores(index, ann, points.drop_last());
        if ann.live(point.id as int) {
            before.push(
                (index.state.documents.index_of(ann.base[point.id as int]) as u64, score::negated(point.sort_key)),
            )
        } else {
            before
        }
    }
}

/// The scores of the documents written since the graph was built, in the order of
/// their ids.
pub open spec fn delta_candidates(index: MultiVectorIndex, delta: Seq<Seq<char>>, scores: Seq<Score>) -> Seq<(u64, Score)> {
    Seq::new(scores.len(), |i: int| (index.state.documents.index_of(delta[i]) as u64, scores[i]))
}

/// Whether a search over the graph named only points that it has.
pub open spec fn known_points(ann: AnnView, points: Seq<ScoredPoint>) -> bool {
    forall|i: int| 0 <= i < points.len() ==> (#[trigger] points[i]).id < ann.base.len()
}

/// The centroids that a row of interactions probes: those with the highest
/// scores, the smaller number first among equals.
pub open spec fn probed(row: Seq<Score>, probes: int, centroid: int) -> bool {
    exists|k: int|
        0 <= k < at_most(if probes > 1 { probes } else { 1 }, row.len()) && (#[trigger] order::ranking(
            positioned(row),
        )[k]).0 == centroid
}

/// Whether some row probes a centroid.
pub open spec fn selected(interaction: Seq<Seq<Score>>, probes: int, centroid: int) -> bool {
    exists|q: int| 0 <= q < interaction.len() && probed(#[trigger] interaction[q], probes, centroid)
}

/// Whether a document has a vector near a centroid that some row probes.
pub open spec fn reached(index: MultiVectorIndex, interaction: Seq<Seq<Score>>, probes: int, document: int) -> bool {
    exists|c: int|
        0 <= c < index.state@.postings.len() && selected(interaction, probes, c)
            && #[trigger] index.state@.postings[c].contains(index.state.documents.ids()[document])
}

/// The sum of the vectors of the first `n` documents.
pub open spec fn token_sum(documents: Seq<DocumentRecord>) -> nat
    decreases documents.len(),
{
    if documents.len() == 0 {
        0
    } else {
        token_sum(documents.drop_last()) + documents.last().tokens as nat
    }
}

/// The sum of the bytes of documents.
pub open spec fn byte_sum(documents: Seq<DocumentRecord>) -> nat
    decreases documents.len(),
{
    if documents.len() == 0 {
        0
    } else {
        byte_sum(documents.drop_last()) + documents.last().compressed_bytes as nat
    }
}

proof fn lemma_sums_grow(documents: Seq<DocumentRecord>, n: int)
    requires
        0 <= n <= documents.len(),
    ensures
        token_sum(documents.take(n)) <= token_sum(documents),
        byte_sum(documents.take(n)) <= byte_sum(documents),
    decreases documents.len(),
{
    if n < documents.len() {
        lemma_sums_grow(documents.drop_last(), n);
        assert(documents.drop_last().take(n) =~= documents.take(n));
    } else {
        assert(documents.take(n) =~= documents);
    }
}

impl MultiVectorIndex {
    /// Ranks all documents by their scores, the best first, up to `cap`.
    pub fn rank_documents(&self, scores: &[Score], cap: Option<usize>) -> (r: Vec<(u64, Score)>)
        requires
            scores@.len() == self.state.documents.ids().len(),
        ensures
            r@ == order::ranking(positioned(scores@)).take(
                match cap {
                    Some(k) => at_most(k as int, scores@.len()),
                    None => scores@.len() as int,
                },
            ),
    {
        let items: Vec<(u64, Score)> = with_positions(scores);
        let limit: usize = match cap {
            Some(k) => k,
            None => items.len(),
        };
        order::par_rank(items.as_slice(), limit)
    }

    /// Among documents of equal score the smaller id comes first.
    pub proof fn law_ties_are_broken_by_id(&self, scores: Seq<Score>, i: int, j: int)
        requires
            self.ok(),
            scores.len() == self.state.documents.ids().len(),
            0 <= i < j < scores.len(),
        ensures
            ({
                let a = order::ranking(positioned(scores))[i];
                let b = order::ranking(positioned(scores))[j];
                &&& score::total_key(a.1) >= score::total_key(b.1)
                &&& a.1 == b.1 ==> a.0 <= b.0
                &&& a.1 == b.1 && a.0 != b.0 ==> ids::id_less(
                    self.state.documents.ids()[a.0 as int],
                    self.state.documents.ids()[b.0 as int],
                )
            }),
    {
        let items = positioned(scores);
        let out = order::ranking(items);
        order::law_ranking(items);
        let a = out[i];
        let b = out[j];
        assert(order::ranks_before(a, b));
        assert(out.contains(a) && out.contains(b));
        assert(items.contains(a) && items.contains(b));
        let x = choose|x: int| 0 <= x < items.len() && items[x] == a;
        let y = choose|y: int| 0 <= y < items.len() && items[y] == b;
        assert(self.state.documents.keys.len() == scores.len());
        if a.1 == b.1 && a.0 != b.0 {
            assert(x < y);
        }
    }

    /// What a search over the graph has to bring for `count` candidates: how many
    /// points, and the size of the candidate list. Points that no longer stand for
    /// a document are asked for on top. There is nothing to search where no point
    /// stands for a document.
    pub fn plan_ann_search(&self, count: usize, ef_search: usize) -> (r: Result<Option<(usize, usize)>, IndexError>)
        requires
            self.state.ok(),
        ensures
            match self.state@.fde_ann {
                None => r == Err::<Option<(usize, usize)>, IndexError>(IndexError::Invalid(Reason::AnnMissing)),
                Some(ann) => if ann.generation != self.state.generation {
                    r == Err::<Option<(usize, usize)>, IndexError>(IndexError::Invalid(Reason::AnnStale))
                } else if ann.base.len() > state::marks(ann.tombstones) {
                    let points = at_most(count + state::marks(ann.tombstones), ann.base.len());
                    r == Ok::<Option<(usize, usize)>, IndexError>(
                        Some((points as usize, if ef_search > points { ef_search } else { points as usize })),
                    )
                } else {
                    r == Ok::<Option<(usize, usize)>, IndexError>(None)
                },
            },
    {
        match &self.state.fde_ann {
            None => Err(IndexError::Invalid(Reason::AnnMissing)),
            Some(ann) => {
                if ann.generation != self.state.generation {
                    return Err(IndexError::Invalid(Reason::AnnStale));
                }
                let dead: usize = ann.tombstone_count();
                let base: usize = ann.base.len();
                if base > dead {
                    let wanted: usize = match count.checked_add(dead) {
                        Some(n) => n,
                        None => usize::MAX,
                    };
                    let points: usize = if wanted < base {
                        wanted
                    } else {
                        base
                    };
                    let ef: usize = if ef_search > points {
                        ef_search
                    } else {
                        points
                    };
                    return Ok(Some((points, ef)));
                }
                Ok(None)
            },
        }
    }

    /// Ranks the documents that a search over the graph found together with those
    /// written since, up to `count`. A point without a document is passed over; a
    /// point that the graph does not have is refused.
    pub fn rank_points(&self, points: &[ScoredPoint], delta_scores: &[Score], count: usize) -> (r: Result<
        Vec<(u64, Score)>,
        IndexError,
    >)
        requires
            self.ok(),
            self.state.fde_ann matches Some(ann) ==> delta_scores@.len() == ann.delta.ids().len(),
        ensures
            match self.state.fde_ann {
                None => r == Err::<Vec<(u64, Score)>, IndexError>(IndexError::Invalid(Reason::AnnMissing)),
                Some(ann) => if !known_points(ann@, points@) {
                    r == Err::<Vec<(u64, Score)>, IndexError>(IndexError::Invalid(Reason::PointId))
                } else {
                    let all = base_scores(*self, ann@, points@) + delta_candidates(*self, ann.delta.ids(), delta_scores@);
                    r is Ok && r->Ok_0@ == order::ranking(all).take(at_most(count as int, all.len()))
                },
            },
    {
        let ann: &FdeAnn = match &self.state.fde_ann {
            None => {
                return Err(IndexError::Invalid(Reason::AnnMissing));
            },
            Some(ann) => ann,
        };
        let mut scores: Vec<(u64, Score)> = Vec::new();
        let mut i: usize = 0;
        assert(points@.take(0) =~= Seq::<ScoredPoint>::empty());
        while i < points.len()
            invariant
                self.ok(),
                self.state.fde_ann == Some(*ann),
                i <= points@.len(),
                known_points(ann@, points@.take(i as int)),
                scores@ == base_scores(*self, ann@, points@.take(i as int)),
            decreases points@.len() - i,
        {
            let point: ScoredPoint = points[i];
            proof {
                assert(points@.take(i + 1).drop_last() =~= points@.take(i as int));
                assert(points@.take(i + 1).last() == point);
            }
            if point.id >= ann.base.len() as u64 {
                assert(!known_points(ann@, points@)) by {
                    assert(points@[i as int].id >= ann@.base.len());
                }
                return Err(IndexError::Invalid(Reason::PointId));
            }
            let at: usize = point.id as usize;
            if !ann.tombstones[at] {
                let id: &String = &ann.base.keys[at];
                proof {
                    assert(ann@.live(at as int));
                    assert(ann@.base[at as int] == id@);
                }
                if let Some(document) = self.state.documents.find(id.as_str()) {
                    proof {
                        self.state.documents.lemma_entry(document as int);
                    }
                    scores.push((document as u64, score::negate(point.sort_key)));
                }
            }
            assert(known_points(ann@, points@.take(i + 1))) by {
                assert forall|k: int| 0 <= k < i + 1 implies (#[trigger] points@.take(i + 1)[k]).id < ann@.base.len() by {
                    if k < i {
                        assert(points@.take(i as int)[k] == points@[k]);
                    }
                }
            }
            i += 1;
        }
        assert(points@.take(i as int) =~= points@);
        let ghost found = scores@;
        let ghost added = delta_candidates(*self, ann.delta.ids(), delta_scores@);
        let mut k: usize = 0;
        while k < delta_scores.len()
            invariant
                self.ok(),
                self.state.fde_ann == Some(*ann),
                k <= delta_scores@.len(),
                delta_scores@.len() == ann.delta.ids().len(),
                added == delta_candidates(*self, ann.delta.ids(), delta_scores@),
                scores@ == found + added.take(k as int),
            decreases delta_scores@.len() - k,
        {
            let id: &String = &ann.delta.keys[k];
            proof {
                ann.delta.lemma_entry(k as int);
                assert(ann@.delta.contains(id@));
                assert(self.state@.documents.dom().contains(id@));
            }
            if let Some(document) = self.state.documents.find(id.as_str()) {
                proof {
                    self.state.documents.lemma_entry(document as int);
                }
                scores.push((document as u64, delta_scores[k]));
            }
            assert(added.take(k + 1) =~= added.take(k as int).push(added[k as int]));
            k += 1;
        }
        assert(added.take(k as int) =~= added);
        Ok(order::rank(scores.as_slice(), count))
    }

    /// Ranks candidates by other scores.
    pub(crate) fn rank_rescored(&self, candidates: &[(u64, Score)], scores: &[Score]) -> (r: Vec<(u64, Score)>)
        requires
            scores@.len() == candidates@.len(),
        ensures
            r@ == order::ranking(rescored(candidates@, scores@)),
    {
        let items: Vec<(u64, Score)> = with_scores(candidates, scores);
        proof {
            order::law_ranking(items@);
            assert(order::ranking(items@).take(items@.len() as int) =~= order::ranking(items@));
        }
        order::rank(items.as_slice(), items.len())
    }

    /// Ranks candidates by what the centroids say of them, and keeps the first
    /// `survivors` with the scores that they had.
    pub fn prune_by(&self, candidates: &[(u64, Score)], scores: &[Score], survivors: usize) -> (r: Vec<
        (u64, Score),
    >)
        requires
            scores@.len() == candidates@.len(),
        ensures
            r@ == pruned(candidates@, scores@, survivors as int),
    {
        let items: Vec<(u64, Score)> = with_scores(candidates, scores);
        let ranked: Vec<(u64, Score)> = order::par_rank(items.as_slice(), survivors);
        proof {
            order::law_ranking(items@);
        }
        let mut out: Vec<(u64, Score)> = Vec::new();
        let mut i: usize = 0;
        while i < ranked.len()
            invariant
                i <= ranked@.len(),
                out@.len() == i,
                forall|k: int|
                    0 <= k < i ==> (#[trigger] out@[k]).0 == ranked@[k].0 && out@[k].1 == first_score(
                        candidates@,
                        out@[k].0,
                    ),
            decreases ranked@.len() - i,
        {
            out.push((ranked[i].0, first_score_of(candidates, ranked[i].0)));
            i += 1;
        }
        assert(out@ =~= pruned(candidates@, scores@, survivors as int));
        out
    }

    /// The hits among candidates that were scored exactly: the `top_k` best, each
    /// with the score by which it became a candidate.
    ///
    /// `scores` are those of the first candidates, as many as were scored.
    pub fn pick_hits(&self, approximate: &[(u64, Score)], scores: &[Score], top_k: usize) -> (r: Vec<Hit>)
        requires
            self.ok(),
            scores@.len() <= approximate@.len(),
            forall|i: int|
                0 <= i < approximate@.len() ==> (#[trigger] approximate@[i]).0 < self.state.documents.ids().len(),
        ensures
            is_hits(*self, approximate@, scores@, top_k as int, r@),
    {
        let items: Vec<(u64, Score)> = with_scores(approximate, scores);
        let ranked: Vec<(u64, Score)> = order::rank(items.as_slice(), top_k);
        proof {
            order::law_ranking(items@);
            assert forall|k: int| 0 <= k < ranked@.len() implies (#[trigger] ranked@[k]).0
                < self.state.documents.ids().len() by {
                assert(order::ranking(items@).contains(order::ranking(items@)[k]));
                assert(items@.contains(ranked@[k]));
                let m = choose|m: int| 0 <= m < items@.len() && items@[m] == ranked@[k];
                assert(approximate@[m].0 < self.state.documents.ids().len());
            }
        }
        let total: usize = self.state.documents.len();
        let mut out: Vec<Hit> = Vec::new();
        let mut i: usize = 0;
        while i < ranked.len()
            invariant
                self.ok(),
                total == self.state.documents.ids().len(),
                i <= ranked@.len(),
                out@.len() == i,
                forall|k: int|
                    0 <= k < ranked@.len() ==> (#[trigger] ranked@[k]).0 < self.state.documents.ids().len(),
                forall|k: int|
                    0 <= k < i ==> {
                        let best = ranked@[k];
                        &&& (#[trigger] out@[k]).id@ == self.state.documents.ids()[best.0 as int]
                        &&& out@[k].score == best.1
                        &&& out@[k].fde_score == Some(first_score(approximate@, best.0))
                        &&& out@[k].metadata@ == self.state@.documents[out@[k].id@].metadata
                    },
            decreases ranked@.len() - i,
        {
            proof {
                assert(ranked@[i as int].0 < total);
            }
            let document: usize = ranked[i].0 as usize;
            proof {
                self.state.documents.lemma_entry(document as int);
            }
            out.push(
                Hit {
                    id: self.state.documents.keys[document].clone(),
                    score: ranked[i].1,
                    fde_score: Some(first_score_of(approximate, ranked[i].0)),
                    metadata: self.state.documents.values[document].metadata.clone(),
                },
            );
            i += 1;
        }
        out
    }

    /// The documents that have a vector near one of the centroids that the rows of
    /// interactions probe, in the order of their ids.
    pub fn probe_documents(&self, interaction: &[Vec<Score>], probes: usize) -> (r: Result<Vec<usize>, IndexError>)
        requires
            self.ok(),
            forall|q: int| 0 <= q < interaction@.len() ==> (#[trigger] interaction@[q])@.len() == self.state@.codebook.len(),
        ensures
            self.state@.codebook.len() == 0 ==> r == Err::<Vec<usize>, IndexError>(IndexError::Invalid(Reason::Untrained)),
            self.state@.codebook.len() > 0 ==> {
                &&& r is Ok
                &&& is_reached(*self, arith::rows(interaction@), probes as int, r->Ok_0@)
            },
    {
        if self.state.codebook.len() == 0 {
            return Err(IndexError::Invalid(Reason::Untrained));
        }
        let chosen: Vec<bool> = self.select_centroids(interaction, probes);
        let marked: Vec<bool> = self.mark_documents(&chosen);
        let ghost rows = arith::rows(interaction@);
        proof {
            assert forall|d: int| 0 <= d < marked@.len() implies #[trigger] marked@[d] == reached(
                *self,
                rows,
                probes as int,
                d,
            ) by {
                let id = self.state.documents.ids()[d];
                if marked@[d] {
                    let c = choose|c: int|
                        0 <= c < chosen@.len() && chosen@[c] && #[trigger] self.state@.postings[c].contains(id);
                    assert(selected(rows, probes as int, c));
                    assert(self.state@.postings[c].contains(id));
                }
                if reached(*self, rows, probes as int, d) {
                    let c = choose|c: int|
                        0 <= c < self.state@.postings.len() && selected(rows, probes as int, c)
                            && #[trigger] self.state@.postings[c].contains(id);
                    assert(chosen@[c]);
                    assert(self.state@.postings[c].contains(id));
                }
            }
        }
        let mut out: Vec<usize> = Vec::new();
        let mut d: usize = 0;
        while d < marked.len()
            invariant
                d <= marked@.len(),
                forall|i: int, j: int| 0 <= i < j < out@.len() ==> #[trigger] out@[i] < #[trigger] out@[j],
                forall|i: int| 0 <= i < out@.len() ==> (#[trigger] out@[i]) < d && marked@[out@[i] as int],
                forall|k: usize| k < d && marked@[k as int] ==> #[trigger] out@.contains(k),
            decreases marked@.len() - d,
        {
            if marked[d] {
                let ghost before = out@;
                out.push(d);
                proof {
                    assert forall|k: usize| k < d + 1 && marked@[k as int] implies #[trigger] out@.contains(k) by {
                        if k < d {
                            assert(before.contains(k));
                            let m = choose|m: int| 0 <= m < before.len() && before[m] == k;
                            assert(out@[m] == k);
                        } else {
                            assert(out@[before.len() as int] == k);
                        }
                    }
                }
            }
            d += 1;
        }
        Ok(out)
    }

    /// Which centroids some row probes.
    fn select_centroids(&self, interaction: &[Vec<Score>], probes: usize) -> (r: Vec<bool>)
        requires
            forall|q: int| 0 <= q < interaction@.len() ==> (#[trigger] interaction@[q])@.len() == self.state@.codebook.len(),
        ensures
            r@.len() == self.state@.codebook.len(),
            forall|c: int|
                0 <= c < r@.len() ==> #[trigger] r@[c] == selected(arith::rows(interaction@), probes as int, c),
    {
        let ghost rows = arith::rows(interaction@);
        let count: usize = self.state.codebook.len();
        let mut chosen: Vec<bool> = vec![false; count];
        let limit: usize = if probes > 1 {
            probes
        } else {
            1
        };
        let mut q: usize = 0;
        while q < interaction.len()
            invariant
                q <= interaction@.len(),
                count == self.state@.codebook.len(),
                limit == if probes > 1 {
                    probes
                } else {
                    1usize
                },
                rows == arith::rows(interaction@),
                chosen@.len() == count,
                forall|k: int| 0 <= k < interaction@.len() ==> (#[trigger] interaction@[k])@.len() == count,
                forall|c: int|
                    0 <= c < count ==> #[trigger] chosen@[c] == selected(rows.take(q as int), probes as int, c),
            decreases interaction@.len() - q,
        {
            let ghost row = rows[q as int];
            let items: Vec<(u64, Score)> = with_positions(interaction[q].as_slice());
            let best: Vec<(u64, Score)> = order::rank(items.as_slice(), limit);
            let ghost before = chosen@;
            proof {
                order::law_ranking(items@);
                assert(items@ == positioned(row));
                assert forall|k: int| 0 <= k < best@.len() implies (#[trigger] best@[k]).0 < count by {
                    let all = order::ranking(items@);
                    assert(all.contains(all[k]));
                    assert(items@.contains(best@[k]));
                    let m = choose|m: int| 0 <= m < items@.len() && items@[m] == best@[k];
                }
            }
            let mut k: usize = 0;
            while k < best.len()
                invariant
                    k <= best@.len(),
                    chosen@.len() == count,
                    before.len() == count,
                    forall|n: int| 0 <= n < best@.len() ==> (#[trigger] best@[n]).0 < count,
                    forall|c: int|
                        0 <= c < count ==> #[trigger] chosen@[c] == (before[c] || exists|n: int|
                            0 <= n < k && (#[trigger] best@[n]).0 == c),
                decreases best@.len() - k,
            {
                let ghost prior = chosen@;
                let at: usize = best[k].0 as usize;
                chosen.set(at, true);
                proof {
                    assert forall|c: int| 0 <= c < count implies #[trigger] chosen@[c] == (before[c] || exists|n: int|
                        0 <= n < k + 1 && (#[trigger] best@[n]).0 == c) by {
                        if c == at {
                            assert(best@[k as int].0 == c);
                        } else {
                            assert(chosen@[c] == prior[c]);
                        }
                    }
                }
                k += 1;
            }
            proof {
                let all = order::ranking(positioned(row));
                assert forall|c: int| 0 <= c < count implies #[trigger] chosen@[c] == selected(
                    rows.take(q + 1),
                    probes as int,
                    c,
                ) by {
                    let seen = rows.take(q as int);
                    let now = rows.take(q + 1);
                    assert(probed(row, probes as int, c) == exists|n: int| 0 <= n < best@.len() && (#[trigger] best@[n]).0 == c)
                        by {
                        if probed(row, probes as int, c) {
                            let n = choose|n: int|
                                0 <= n < at_most(if probes > 1 { probes as int } else { 1 }, row.len()) && (
                                #[trigger] all[n]).0 == c;
                            assert(best@[n].0 == c);
                        }
                        if exists|n: int| 0 <= n < best@.len() && (#[trigger] best@[n]).0 == c {
                            let n = choose|n: int| 0 <= n < best@.len() && (#[trigger] best@[n]).0 == c;
                            assert(all[n].0 == c);
                        }
                    }
                    if selected(now, probes as int, c) {
                        let z = choose|z: int| 0 <= z < now.len() && probed(#[trigger] now[z], probes as int, c);
                        if z < q {
                            assert(seen[z] == now[z]);
                            assert(selected(seen, probes as int, c));
                        }
                    }
                    if selected(seen, probes as int, c) {
                        let z = choose|z: int| 0 <= z < seen.len() && probed(#[trigger] seen[z], probes as int, c);
                        assert(now[z] == seen[z]);
                    }
                    if probed(row, probes as int, c) {
                        assert(now[q as int] == row);
                    }
                }
            }
            q += 1;
        }
        assert(rows.take(q as int) =~= rows);
        chosen
    }

    /// Which documents stand in the postings of chosen centroids.
    fn mark_documents(&self, chosen: &Vec<bool>) -> (r: Vec<bool>)
        requires
            self.ok(),
            chosen@.len() == self.state@.codebook.len(),
        ensures
            r@.len() == self.state.documents.ids().len(),
            forall|d: int|
                0 <= d < r@.len() ==> #[trigger] r@[d] == exists|c: int|
                    0 <= c < chosen@.len() && chosen@[c] && #[trigger] self.state@.postings[c].contains(
                        self.state.documents.ids()[d],
                    ),
    {
        let count: usize = self.state.documents.len();
        let ghost names = self.state.documents.ids();
        let mut marked: Vec<bool> = vec![false; count];
        let mut c: usize = 0;
        while c < chosen.len()
            invariant
                self.ok(),
                names == self.state.documents.ids(),
                count == names.len(),
                c <= chosen@.len(),
                chosen@.len() == self.state@.codebook.len(),
                marked@.len() == count,
                forall|d: int|
                    0 <= d < count ==> #[trigger] marked@[d] == exists|e: int|
                        0 <= e < c && chosen@[e] && #[trigger] self.state@.postings[e].contains(names[d]),
            decreases chosen@.len() - c,
        {
            let ghost before = marked@;
            if chosen[c] {
                let ghost set = self.state@.postings[c as int];
                assert(set == state::id_set(self.state.postings@[c as int]));
                let mut k: usize = 0;
                while k < self.state.postings[c].keys.len()
                    invariant
                        self.ok(),
                        names == self.state.documents.ids(),
                        count == names.len(),
                        c < chosen@.len(),
                        chosen@.len() == self.state@.codebook.len(),
                        set == state::id_set(self.state.postings@[c as int]),
                        set == self.state@.postings[c as int],
                        k <= self.state.postings@[c as int].keys@.len(),
                        marked@.len() == count,
                        before.len() == count,
                        forall|d: int|
                            0 <= d < count ==> #[trigger] marked@[d] == (before[d] || exists|n: int|
                                0 <= n < k && #[trigger] self.state.postings@[c as int].ids()[n] == names[d]),
                    decreases self.state.postings@[c as int].keys@.len() - k,
                {
                    let id: &String = &self.state.postings[c].keys[k];
                    let ghost prior = marked@;
                    proof {
                        self.state.postings@[c as int].lemma_entry(k as int);
                        assert(set.contains(id@));
                        assert(self.state@.documents.dom().contains(id@));
                    }
                    if let Some(at) = self.state.documents.find(id.as_str()) {
                        marked.set(at, true);
                        proof {
                            ids::law_ascending_ids_are_distinct(names);
                            assert forall|d: int| 0 <= d < count implies #[trigger] marked@[d] == (before[d] || exists|
                                n: int,
                            |
                                0 <= n < k + 1 && #[trigger] self.state.postings@[c as int].ids()[n] == names[d]) by {
                                if d == at {
                                    assert(self.state.postings@[c as int].ids()[k as int] == names[d]);
                                } else {
                                    assert(marked@[d] == prior[d]);
                                    assert(names[d] != names[at as int]);
                                }
                            }
                        }
                    }
                    k += 1;
                }
                proof {
                    assert forall|d: int| 0 <= d < count implies #[trigger] marked@[d] == exists|e: int|
                        0 <= e < c + 1 && chosen@[e] && #[trigger] self.state@.postings[e].contains(names[d]) by {
                        if set.contains(names[d]) {
                            let n = self.state.postings@[c as int].lemma_position(names[d]);
                            assert(self.state.postings@[c as int].ids()[n] == names[d]);
                            assert(self.state@.postings[c as int].contains(names[d]));
                        }
                        if marked@[d] && !before[d] {
                            let n = choose|n: int|
                                0 <= n < k && #[trigger] self.state.postings@[c as int].ids()[n] == names[d];
                            self.state.postings@[c as int].lemma_entry(n);
                            assert(self.state@.postings[c as int].contains(names[d]));
                        }
                    }
                }
            }
            c += 1;
        }
        marked
    }

    /// The figures of the index.
    pub fn stats(&self) -> (r: IndexStats)
        requires
            self.ok(),
            token_sum(self.state.documents.values@) <= usize::MAX,
            byte_sum(self.state.documents.values@) <= u64::MAX,
        ensures
            r.documents == self.state.documents.ids().len(),
            r.generation == self.state.generation,
            r.token_vectors == token_sum(self.state.documents.values@),
            r.compressed_bytes == byte_sum(self.state.documents.values@),
            r.centroids == self.state@.codebook.len(),
            r.residual_bits == self.config.residual_bits,
            r.trained == (self.state@.codebook.len() > 0),
            r.fde_dimension == self.config.encoding_dimension(),
            r.fde_encoding_version == self.fde_encoding_version,
            match self.state.fde_ann {
                None => r.fde_ann_nodes == 0 && r.fde_ann_base_nodes == 0 && r.fde_ann_delta_documents == 0
                    && r.fde_ann_tombstones == 0,
                Some(ann) => {
                    &&& r.fde_ann_base_nodes == ann@.base.len()
                    &&& r.fde_ann_delta_documents == ann.delta.ids().len()
                    &&& r.fde_ann_tombstones == state::marks(ann@.tombstones)
                    &&& r.fde_ann_nodes == ann@.base.len() - state::marks(ann@.tombstones) + ann.delta.ids().len()
                    &&& r.fde_ann_nodes == r.documents
                },
            },
    {
        let ghost all = self.state.documents.values@;
        let mut token_vectors: usize = 0;
        let mut compressed_bytes: u64 = 0;
        let mut i: usize = 0;
        while i < self.state.documents.values.len()
            invariant
                all == self.state.documents.values@,
                i <= all.len(),
                token_sum(all) <= usize::MAX,
                byte_sum(all) <= u64::MAX,
                token_vectors == token_sum(all.take(i as int)),
                compressed_bytes == byte_sum(all.take(i as int)),
            decreases all.len() - i,
        {
            proof {
                lemma_sums_grow(all, i + 1);
                assert(all.take(i + 1).drop_last() =~= all.take(i as int));
                assert(all.take(i + 1).last() == all[i as int]);
            }
            token_vectors = token_vectors + self.state.documents.values[i].tokens;
            compressed_bytes = compressed_bytes + self.state.documents.values[i].compressed_bytes;
            i += 1;
        }
        assert(all.take(i as int) =~= all);
        let mut nodes: usize = 0;
        let mut base_nodes: usize = 0;
        let mut delta_documents: usize = 0;
        let mut tombstones: usize = 0;
        if let Some(ann) = &self.state.fde_ann {
            base_nodes = ann.base.len();
            delta_documents = ann.delta.len();
            tombstones = ann.tombstone_count();
            proof {
                state::law_overlay_counts_documents(*ann, self.state.documents);
            }
            nodes = base_nodes - tombstones + delta_documents;
        }
        IndexStats {
            documents: self.state.documents.len(),
            generation: self.state.generation,
            token_vectors,
            compressed_bytes,
            centroids: self.state.codebook.len(),
            residual_bits: self.config.residual_bits,
            trained: self.state.codebook.len() != 0,
            fde_dimension: self.config.output_dimension(),
            fde_ann_nodes: nodes,
            fde_ann_base_nodes: base_nodes,
            fde_ann_delta_documents: delta_documents,
            fde_ann_tombstones: tombstones,
            fde_encoding_version: self.fde_encoding_version,
        }
    }
}

} // verus!
