//! What queries over the graph of an index find, and what an index that opens holds.

use vstd::prelude::*;
use crate::arith;
use crate::config::{Durability, IndexConfig, IndexError};
use crate::engine::answer;
use crate::engine::index;
use crate::engine::index::MultiVectorIndex;
use crate::engine::manifest;
use crate::engine::manifest::{Manifest, SegmentBoundaries};
use crate::engine::nearest;
use crate::engine::rank;
use crate::engine::state;
use crate::engine::state::AnnView;
use crate::error::StorageError;
use crate::hnsw::descend;
use crate::hnsw::types::ScoredPoint;
use crate::laws::best;
use crate::laws::documents;
use crate::laws::kmeans;
use crate::laws::search;
use crate::muvera;
use crate::muvera::FdeEncoder;
use crate::order;
use crate::score;
use crate::score::Score;
use crate::storage;

verus! {

/// Whether candidates hold every document of a found point that stands for one, with the
/// score of the point.
pub open spec fn hold_what_was_found(
    index: MultiVectorIndex,
    ann: AnnView,
    points: Seq<ScoredPoint>,
    items: Seq<(u64, Score)>,
) -> bool {
    forall|i: int|
        0 <= i < points.len() && documents::stands(ann)(#[trigger] points[i]) ==> items.contains(
            (
                index.state.documents.index_of(ann.base[points[i].id as int]) as u64,
                score::negated(points[i].sort_key),
            ),
        )
}

/// Whether candidates hold a document with the product of its encoding and a query.
pub open spec fn hold_scored<D: Fn(&[Score], &[Score]) -> Score>(
    index: MultiVectorIndex,
    dot: D,
    query: Seq<Score>,
    fde: Seq<u8>,
    id: Seq<char>,
    items: Seq<(u64, Score)>,
) -> bool {
    exists|s: Score| #[trigger]
        answer::is_score(
            dot,
            query,
            fde,
            index.state@.documents[id].fde_location,
            index.config.encoding_dimension(),
            s,
        ) && items.contains((index.state.documents.index_of(id) as u64, s))
}

/// Whether candidates are what found points and the documents written since give.
pub open spec fn are_merged<D: Fn(&[Score], &[Score]) -> Score>(
    index: MultiVectorIndex,
    dot: D,
    query: Seq<Score>,
    fde: Seq<u8>,
    points: Seq<ScoredPoint>,
    items: Seq<(u64, Score)>,
) -> bool {
    &&& hold_what_was_found(index, index.state.fde_ann->0@, points, items)
    &&& forall|k: int|
        0 <= k < index.state.fde_ann->0.delta.ids().len() ==> hold_scored(
            index,
            dot,
            query,
            fde,
            #[trigger] index.state.fde_ann->0.delta.ids()[k],
            items,
        )
}

/// A ranking over the graph lists the best of all documents that a search of the graph
/// found and of all that were written since.
pub proof fn law_graph_rankings_hold_the_best<D: Fn(&[Score], &[Score]) -> Score>(
    index: MultiVectorIndex,
    dot: D,
    query: Seq<Score>,
    fde: Seq<u8>,
    count: usize,
    ef_search: usize,
    list: Seq<(u64, Score)>,
)
    requires
        index.ok(),
        index.state@.fde_ann is Some,
        nearest::is_current(index.config, index.state@, fde),
        query.len() == index.config.encoding_dimension(),
        answer::is_ann_ranking(
            index,
            dot,
            query,
            fde,
            count,
            ef_search,
            Ok::<Seq<(u64, Score)>, IndexError>(list),
        ),
    ensures
        exists|points: Seq<ScoredPoint>, items: Seq<(u64, Score)>| #[trigger]
            are_merged(index, dot, query, fde, points, items) && answer::is_found(
                dot,
                index.state@.fde_ann->0,
                query,
                count,
                ef_search,
                points,
            ) && best::are_best_of(items, count as int, list),
{
    let ann = index.state.fde_ann->0;
    assert(ann@.generation == index.state@.generation);
    let r = Ok::<Seq<(u64, Score)>, IndexError>(list);
    let points = choose|points: Seq<ScoredPoint>| #[trigger]
        answer::is_found(dot, ann@, query, count, ef_search, points) && answer::is_merged(
            index,
            dot,
            query,
            fde,
            count,
            points,
            r,
        );
    let names = ann.delta.ids();
    let places = answer::locations_of(index, names);
    let found = choose|found: Result<Seq<Score>, StorageError>| #[trigger]
        answer::are_scores(dot, query, fde, places, index.config.encoding_dimension(), found) && r == match found {
            Err(e) => Err::<Seq<(u64, Score)>, IndexError>(IndexError::Io(e)),
            Ok(scores) => {
                let all = rank::base_scores(index, ann@, points) + rank::delta_candidates(index, names, scores);
                Ok(order::ranking(all).take(rank::at_most(count as int, all.len())))
            },
        };
    let scores = found->Ok_0;
    let base = rank::base_scores(index, ann@, points);
    let new = rank::delta_candidates(index, names, scores);
    let all = base + new;
    nearest::lemma_merged(index, ann, dot, query, fde, count, ef_search, points, scores);
    best::law_rankings_begin_with_the_best(all, count as int);
    assert forall|i: int| 0 <= i < points.len() && documents::stands(ann@)(#[trigger] points[i]) implies all.contains(
        (
            index.state.documents.index_of(ann@.base[points[i].id as int]) as u64,
            score::negated(points[i].sort_key),
        ),
    ) by {
        let kept = points.filter(documents::stands(ann@));
        documents::law_points_score_their_documents(index, ann@, points);
        points.lemma_filter_contains(documents::stands(ann@), i);
        let k = choose|k: int| 0 <= k < kept.len() && kept[k] == points[i];
        assert(all[k] == base[k]);
    }
    assert forall|k: int| 0 <= k < names.len() implies hold_scored(
        index,
        dot,
        query,
        fde,
        #[trigger] names[k],
        all,
    ) by {
        assert(places[k] == index.state@.documents[names[k]].fde_location);
        assert(answer::is_score(dot, query, fde, places[k], index.config.encoding_dimension(), scores[k]));
        assert(all[base.len() + k] == new[k]);
        assert(all.contains((index.state.documents.index_of(names[k]) as u64, scores[k])));
    }
    assert(are_merged(index, dot, query, fde, points, all));
}

/// A search of an index's graph with a longer list than it has nodes finds every point to
/// which a path leads, but for those behind as many as are wanted: one for each candidate
/// and one for each point that no longer stands for a document.
pub proof fn law_graph_searches_are_wide<D: Fn(&[Score], &[Score]) -> Score>(
    dot: D,
    ann: AnnView,
    query: Seq<Score>,
    count: usize,
    ef_search: usize,
    points: Seq<ScoredPoint>,
    path: Seq<usize>,
)
    requires
        ann.graph.wf(),
        ann.graph.entry() is Some,
        ann.base.len() <= usize::MAX,
        ann.base.len() > state::marks(ann.tombstones),
        answer::is_found(dot, ann, query, count, ef_search, points),
        ef_search > ann.graph.nodes(),
        path.len() > 0,
        path[0] == descend::descended(
            ann.graph.space(),
            dot,
            ann.graph.links(),
            query,
            ann.graph.entry()->0,
            ann.graph.top_level(),
            0,
        ) as usize,
        forall|i: int| 0 < i < path.len() ==> ann.graph.links()[0][path[i - 1] as int].contains(#[trigger] path[i]),
        path.last() < ann.graph.nodes(),
        !ann.graph.deleted@[path.last() as int],
    ensures
        ({
            let found = search::as_point(ann.graph, dot, query, path.last() as int);
            let dead = ann.tombstones.filter(|mark: bool| mark).len();
            points.contains(found) || ((points.len() == count + dead || points.len() == ann.base.len()) && forall|
                i: int,
            |
                0 <= i < points.len() ==> search::comes_first(#[trigger] points[i], found))
        }),
{
    documents::law_marks_are_counted(ann.tombstones);
    let wanted = answer::wanted_points(ann, count) as usize;
    let size = if ef_search > wanted {
        ef_search
    } else {
        wanted
    };
    search::law_wide_searches_find_the_best(
        ann.graph,
        dot,
        query,
        wanted,
        answer::ann_options(size),
        points,
        path,
    );
}

/// A query is encoded from its normalized vectors.
pub proof fn law_queries_are_encoded_from_units<
    N: Fn(&[Score]) -> Vec<Score>,
    D: Fn(&[Score], &[Score]) -> Score,
    A: Fn(Score, Score) -> Score,
>(normalize: N, dot: D, add: A, encoder: FdeEncoder, vectors: Seq<Seq<Score>>)
    ensures
        answer::encoded(normalize, dot, add, encoder, vectors) == muvera::query_encoding(
            dot,
            add,
            encoder,
            kmeans::units(normalize, vectors),
            encoder.repetitions@.len(),
        ),
{
    assert(crate::engine::late::normalized_rows(normalize, vectors) =~= kmeans::units(normalize, vectors));
}

/// Whether the bytes at a place of a segment are those that a digest was taken of.
pub open spec fn is_sealed(segment: Seq<u8>, location: storage::ObjectLocation) -> bool {
    &&& location.offset + location.length <= segment.len()
    &&& location.checksum is Some
    &&& location.checksum->0@ == storage::blake3_digest(
        segment.subrange(location.offset as int, location.offset + location.length),
    )
}

/// An index that opens has every document of its manifest, whole: both of its records lie
/// within the segments with the digests that the manifest has of them, the compressed one
/// has a row for each of its vectors, the centroids that the manifest names, and finite
/// numbers only, and its encoding is one of the dimension that the configuration gives.
pub proof fn law_opened_documents_are_whole<A: Fn(Score, Score) -> Score>(
    c: IndexConfig,
    durability: Durability,
    m: Manifest,
    objects: Seq<u8>,
    fde: Seq<u8>,
    add: A,
    opened: MultiVectorIndex,
    boundaries: SegmentBoundaries,
    k: int,
)
    requires
        index::opened(
            c,
            durability,
            Some((m, true)),
            objects,
            fde,
            add,
            Ok::<(MultiVectorIndex, SegmentBoundaries), IndexError>((opened, boundaries)),
        ),
        0 <= k < m.documents.values@.len(),
    ensures
        m.segments == Some(boundaries),
        m.config == c,
        boundaries.objects <= objects.len(),
        boundaries.fde <= fde.len(),
        opened.state.documents.ids() == m.documents.ids(),
        ({
            let record = m.documents.values@[k]@;
            let cut = objects.take(boundaries.objects as int);
            let cut_fde = fde.take(boundaries.fde as int);
            let bytes = cut.subrange(record.location.offset as int, record.location.offset + record.location.length);
            let codebook = arith::rows(m.codebook@);
            let values = storage::decoded(add, bytes, codebook, m.residual_codebook@);
            &&& is_sealed(cut, record.location)
            &&& is_sealed(cut_fde, record.fde_location)
            &&& record.tokens > 0
            &&& storage::le32_at(bytes, 0) == record.tokens
            &&& storage::le32_at(bytes, 4) == c.dimension
            &&& storage::record_ids(bytes) == record.centroid_ids
            &&& forall|i: int| 0 <= i < record.centroid_ids.len() ==> (#[trigger] record.centroid_ids[i]) < codebook.len()
            &&& forall|i: int| 0 <= i < values.len() ==> score::finite(#[trigger] values[i])
            &&& record.compressed_bytes == record.location.length
            &&& record.fde_location.length == 4 * c.encoding_dimension()
            &&& manifest::encoding_is(cut_fde, record.fde_location, true)
            &&& opened.state.documents.values@[k]@.metadata == record.metadata
            &&& opened.state.documents.values@[k]@.centroid_ids == record.centroid_ids
            &&& opened.state.documents.values@[k]@.location.offset == record.location.offset
            &&& opened.state.documents.values@[k]@.fde_location.offset == record.fde_location.offset
        }),
{
    let b = index::boundaries_of(Some((m, true)), objects.len(), fde.len());
    assert(b == boundaries);
    let cut = objects.take(b.objects as int);
    let cut_fde = fde.take(b.fde as int);
    assert(index::document_passes(m, k, cut, cut_fde, true, add));
    assert(index::resealed(m.documents.values@[k]@, opened.state.documents.values@[k]@, cut, cut_fde));
}

} // verus!
