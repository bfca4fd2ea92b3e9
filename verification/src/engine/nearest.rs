//! What queries promise of their candidates and hits, whether these come from the
//! graph or from a comparison with all encodings.

use vstd::prelude::*;
use crate::config;
use crate::config::{IndexConfig, IndexError};
use crate::engine::answer;
use crate::engine::answer::Segments;
use crate::engine::assemble;
use crate::engine::index::MultiVectorIndex;
use crate::engine::late;
use crate::engine::late::Kernels;
use crate::engine::rank;
use crate::engine::rank::Hit;
use crate::engine::state::{AnnView, FdeAnn, StateView};
use crate::engine::update;
use crate::engine::update::StagedDocument;
use crate::error::StorageError;
use crate::hnsw::graph::HNSWIndex;
use crate::hnsw::search;
use crate::hnsw::types::ScoredPoint;
use crate::ids;
use crate::muvera;
use crate::muvera::FdeEncoder;
use crate::order;
use crate::score;
use crate::score::Score;
use crate::storage;
use crate::storage::ObjectLocation;

verus! {

/// Whether the graph, if there is one, holds for every point that stands for a
/// document the encoding that the segment holds of that document.
pub open spec fn is_current(c: IndexConfig, s: StateView, fde: Seq<u8>) -> bool {
    s.fde_ann matches Some(ann) ==> forall|point: int| #[trigger]
        ann.live(point) ==> answer::is_encoding(
            fde,
            s.documents[ann.base[point]].fde_location,
            c.encoding_dimension(),
            ann.graph.vectors.vectors()[ann.graph.node_of(point as u64)->0],
        )
}

/// A graph that was built over all documents and taken into use is current.
pub proof fn law_built_graph_is_current(
    before: MultiVectorIndex,
    after: MultiVectorIndex,
    fde: Seq<u8>,
    graph: HNSWIndex,
)
    requires
        before.ok(),
        assemble::holds_documents(before, fde, graph, before.state.documents.ids().len() as int),
        after.config == before.config,
        after.state@ == (StateView {
            fde_ann: Some(
                AnnView {
                    graph,
                    base: before.state.documents.ids(),
                    tombstones: Seq::new(before.state.documents.ids().len(), |i: int| false),
                    delta: Set::empty(),
                    generation: before.state@.generation,
                },
            ),
            ..before.state@
        }),
    ensures
        is_current(after.config, after.state@, fde),
{
    let ann = after.state@.fde_ann->0;
    assert forall|point: int| #[trigger] ann.live(point) implies answer::is_encoding(
        fde,
        after.state@.documents[ann.base[point]].fde_location,
        after.config.encoding_dimension(),
        graph.vectors.vectors()[graph.node_of(point as u64)->0],
    ) by {
        before.state.documents.lemma_entry(point);
        assert(graph.node_of(point as u64) is Some);
    }
}

/// What was read of a segment is read of it when bytes follow.
proof fn lemma_longer(fde: Seq<u8>, tail: Seq<u8>, location: ObjectLocation, dimension: nat, v: Seq<Score>)
    requires
        answer::is_encoding(fde, location, dimension, v),
    ensures
        answer::is_encoding(fde + tail, location, dimension, v),
{
    assert(storage::record(fde + tail, location) =~= storage::record(fde, location));
}

/// Writing and dropping documents keeps a graph current, whatever is appended to the
/// segment.
pub proof fn law_changes_keep_the_graph_current(
    c: IndexConfig,
    s: StateView,
    fde: Seq<u8>,
    tail: Seq<u8>,
    batch: Seq<StagedDocument>,
    id: Seq<char>,
)
    requires
        s.wf(),
        is_current(c, s, fde),
    ensures
        is_current(c, update::upserts(s, batch).committed(), fde + tail),
        is_current(c, s.deleted(id).committed(), fde + tail),
{
    lemma_batch_keeps(c, s, fde, batch);
    let next = update::upserts(s, batch);
    if let Some(ann) = next.fde_ann {
        let last = next.committed().fde_ann->0;
        assert forall|point: int| #[trigger] last.live(point) implies answer::is_encoding(
            fde + tail,
            next.documents[last.base[point]].fde_location,
            c.encoding_dimension(),
            last.graph.vectors.vectors()[last.graph.node_of(point as u64)->0],
        ) by {
            assert(ann.live(point));
            lemma_longer(
                fde,
                tail,
                next.documents[ann.base[point]].fde_location,
                c.encoding_dimension(),
                ann.graph.vectors.vectors()[ann.graph.node_of(point as u64)->0],
            );
        }
    }
    if let Some(ann) = s.fde_ann {
        let next = s.deleted(id).committed();
        let last = next.fde_ann->0;
        assert forall|point: int| #[trigger] last.live(point) implies answer::is_encoding(
            fde + tail,
            next.documents[last.base[point]].fde_location,
            c.encoding_dimension(),
            last.graph.vectors.vectors()[last.graph.node_of(point as u64)->0],
        ) by {
            assert(ann.live(point));
            lemma_longer(
                fde,
                tail,
                s.documents[ann.base[point]].fde_location,
                c.encoding_dimension(),
                ann.graph.vectors.vectors()[ann.graph.node_of(point as u64)->0],
            );
        }
    }
}

proof fn lemma_batch_keeps(c: IndexConfig, s: StateView, fde: Seq<u8>, batch: Seq<StagedDocument>)
    requires
        s.fde_ann matches Some(ann) ==> ann.tombstones.len() == ann.base.len(),
        is_current(c, s, fde),
    ensures
        is_current(c, update::upserts(s, batch), fde),
        update::upserts(s, batch).fde_ann matches Some(ann) ==> ann.tombstones.len() == ann.base.len(),
    decreases batch.len(),
{
    if batch.len() > 0 {
        lemma_batch_keeps(c, s, fde, batch.drop_last());
        let before = update::upserts(s, batch.drop_last());
        let after = update::upserts(s, batch);
        if let Some(ann) = before.fde_ann {
            let last = after.fde_ann->0;
            assert forall|point: int| #[trigger] last.live(point) implies answer::is_encoding(
                fde,
                after.documents[last.base[point]].fde_location,
                c.encoding_dimension(),
                last.graph.vectors.vectors()[last.graph.node_of(point as u64)->0],
            ) by {
                assert(ann.live(point));
            }
        }
    }
}

/// Whether these are documents, none twice, each with the product of the query and
/// the encoding that the segment holds of it.
pub open spec fn are_candidates<D: Fn(&[Score], &[Score]) -> Score>(
    index: MultiVectorIndex,
    dot: D,
    query: Seq<Score>,
    fde: Seq<u8>,
    list: Seq<(u64, Score)>,
) -> bool {
    &&& answer::are_documents(index, list)
    &&& order::ids_differ(list)
    &&& forall|i: int|
        0 <= i < list.len() ==> answer::is_score(
            dot,
            query,
            fde,
            index.state.documents.values@[(#[trigger] list[i]).0 as int].fde_location,
            index.config.encoding_dimension(),
            list[i].1,
        )
}

/// Whether a list is as a ranking has it.
pub open spec fn is_ranked(list: Seq<(u64, Score)>) -> bool {
    forall|i: int, j: int|
        0 <= i <= j < list.len() ==> order::ranks_before(#[trigger] list[i], #[trigger] list[j])
}

proof fn lemma_index_of(index: MultiVectorIndex, id: Seq<char>) -> (k: int)
    requires
        index.ok(),
        index.state@.documents.dom().contains(id),
    ensures
        k == index.state.documents.index_of(id),
        0 <= k < index.state.documents.ids().len(),
        k <= u64::MAX,
        index.state.documents.ids()[k] == id,
        index.state.documents.values@[k]@ == index.state@.documents[id],
{
    let k = index.state.documents.lemma_position(id);
    index.state.documents.lemma_entry(k);
    assert(index.state.documents.keys.len() == index.state.documents.ids().len());
    k
}

/// Whether a found point that stands for a document gives this document and score.
spec fn stems(index: MultiVectorIndex, ann: AnnView, points: Seq<ScoredPoint>, item: (u64, Score)) -> bool {
    exists|i: int|
        0 <= i < points.len() && ann.live((#[trigger] points[i]).id as int) && item == (
            index.state.documents.index_of(ann.base[points[i].id as int]) as u64,
            score::negated(points[i].sort_key),
        )
}

/// Where the scores of found points come from.
proof fn lemma_base_entries(index: MultiVectorIndex, ann: FdeAnn, points: Seq<ScoredPoint>)
    requires
        index.ok(),
        index.state.fde_ann == Some(ann),
        forall|i: int, j: int| 0 <= i < j < points.len() ==> (#[trigger] points[i]).id != (#[trigger] points[j]).id,
    ensures
        order::ids_differ(rank::base_scores(index, ann@, points)),
        forall|k: int|
            0 <= k < rank::base_scores(index, ann@, points).len() ==> stems(
                index,
                ann@,
                points,
                #[trigger] rank::base_scores(index, ann@, points)[k],
            ),
    decreases points.len(),
{
    if points.len() > 0 {
        let rest = points.drop_last();
        let last = points.last();
        assert forall|i: int, j: int| 0 <= i < j < rest.len() implies (#[trigger] rest[i]).id != (
        #[trigger] rest[j]).id by {
            assert(points[i].id != points[j].id);
        }
        lemma_base_entries(index, ann, rest);
        let before = rank::base_scores(index, ann@, rest);
        let all = rank::base_scores(index, ann@, points);
        assert forall|k: int| 0 <= k < all.len() implies stems(index, ann@, points, #[trigger] all[k]) by {
            if k < before.len() {
                assert(all[k] == before[k]);
                assert(stems(index, ann@, rest, before[k]));
                let i = choose|i: int|
                    0 <= i < rest.len() && ann@.live((#[trigger] rest[i]).id as int) && before[k] == (
                        index.state.documents.index_of(ann@.base[rest[i].id as int]) as u64,
                        score::negated(rest[i].sort_key),
                    );
                assert(points[i] == rest[i]);
            } else {
                assert(points[points.len() - 1] == last);
            }
        }
        if ann@.live(last.id as int) {
            let own = lemma_index_of(index, ann@.base[last.id as int]);
            assert forall|i: int, j: int| 0 <= i < j < all.len() implies (#[trigger] all[i]).0 != (
            #[trigger] all[j]).0 by {
                if j < before.len() {
                    assert(before[i].0 != before[j].0);
                } else {
                    assert(stems(index, ann@, rest, before[i]));
                    let m = choose|m: int|
                        0 <= m < rest.len() && ann@.live((#[trigger] rest[m]).id as int) && before[i] == (
                            index.state.documents.index_of(ann@.base[rest[m].id as int]) as u64,
                            score::negated(rest[m].sort_key),
                        );
                    let other = lemma_index_of(index, ann@.base[rest[m].id as int]);
                    assert(points[m].id != points[points.len() - 1].id);
                    assert(ann@.base[rest[m].id as int] != ann@.base[last.id as int]);
                }
            }
        }
    }
}

/// Which failures a ranking over the graph can end in: a document written since the
/// graph was built has no encoding that can be read.
pub open spec fn is_unreadable(index: MultiVectorIndex, fde: Seq<u8>, documents: Seq<Seq<char>>, e: IndexError) -> bool {
    &&& e is Io
    &&& documents.len() > 0
    &&& if fde.len() == 0 {
        e->Io_0 == StorageError::EmptyFdeSegment
    } else {
        exists|i: int|
            0 <= i < documents.len() && answer::is_refused(
                fde,
                index.state@.documents[#[trigger] documents[i]].fde_location,
                index.config.encoding_dimension(),
                e->Io_0,
            )
    }
}

/// Whether these are candidates as the graph and the documents written since give
/// them: documents, none twice, each with the product of the query and its current
/// encoding, ranked, and no more than asked for; with as many asked for as there are
/// documents, every document written since is among them. It fails only where the
/// encoding of a document written since cannot be read.
pub open spec fn are_graph_candidates<D: Fn(&[Score], &[Score]) -> Score>(
    index: MultiVectorIndex,
    dot: D,
    query: Seq<Score>,
    fde: Seq<u8>,
    count: usize,
    r: Result<Seq<(u64, Score)>, IndexError>,
) -> bool {
    match r {
        Ok(list) => {
            &&& list.len() <= count
            &&& are_candidates(index, dot, query, fde, list)
            &&& is_ranked(list)
            &&& count >= index.state.documents.ids().len() ==> forall|id: Seq<char>| #[trigger]
                index.state@.fde_ann->0.delta.contains(id) ==> has_document(index, list, id)
        },
        Err(e) => is_unreadable(index, fde, index.state.fde_ann->0.delta.ids(), e),
    }
}

/// Whether a document is among candidates.
pub open spec fn has_document(index: MultiVectorIndex, list: Seq<(u64, Score)>, id: Seq<char>) -> bool {
    exists|k: int| 0 <= k < list.len() && index.state.documents.ids()[(#[trigger] list[k]).0 as int] == id
}

/// What a ranking over a current graph gives are current candidates.
pub proof fn law_graph_candidates<D: Fn(&[Score], &[Score]) -> Score>(
    index: MultiVectorIndex,
    dot: D,
    query: Seq<Score>,
    fde: Seq<u8>,
    count: usize,
    ef_search: usize,
    r: Result<Seq<(u64, Score)>, IndexError>,
)
    requires
        index.ok(),
        index.state@.fde_ann is Some,
        is_current(index.config, index.state@, fde),
        query.len() == index.config.encoding_dimension(),
        answer::is_ann_ranking(index, dot, query, fde, count, ef_search, r),
    ensures
        are_graph_candidates(index, dot, query, fde, count, r),
{
    let ann = index.state.fde_ann->0;
    assert(ann@.generation == index.state@.generation);
    let points = choose|points: Seq<ScoredPoint>|
        #[trigger] answer::is_found(dot, ann@, query, count, ef_search, points) && answer::is_merged(
            index,
            dot,
            query,
            fde,
            count,
            points,
            r,
        );
    let names = ann.delta.ids();
    let places = answer::locations_of(index, names);
    if names.len() > 0 && fde.len() == 0 {
    } else {
        let found = choose|found: Result<Seq<Score>, StorageError>|
            #[trigger] answer::are_scores(dot, query, fde, places, index.config.encoding_dimension(), found) && r
                == match found {
                Err(e) => Err::<Seq<(u64, Score)>, IndexError>(IndexError::Io(e)),
                Ok(scores) => {
                    let all = rank::base_scores(index, ann@, points) + rank::delta_candidates(index, names, scores);
                    Ok(order::ranking(all).take(rank::at_most(count as int, all.len())))
                },
            };
        match found {
            Err(e) => {
                let i = choose|i: int|
                    0 <= i < places.len() && answer::is_refused(
                        fde,
                        #[trigger] places[i],
                        index.config.encoding_dimension(),
                        e,
                    );
                assert(places[i] == index.state@.documents[names[i]].fde_location);
            },
            Ok(scores) => {
                let all = rank::base_scores(index, ann@, points) + rank::delta_candidates(index, names, scores);
                lemma_merged(index, ann, dot, query, fde, count, ef_search, points, scores);
                lemma_ranked_candidates(index, dot, query, fde, all, rank::at_most(count as int, all.len()));
                let list = r->Ok_0;
                order::law_ranking(all);
                assert(index.state@.fde_ann->0 == ann@);
                if count >= index.state.documents.ids().len() {
                    lemma_few(all, index.state.documents.ids().len());
                    assert(list =~= order::ranking(all));
                    assert forall|id: Seq<char>| #[trigger] ann@.delta.contains(id) implies has_document(
                        index,
                        list,
                        id,
                    ) by {
                        let at = ann.delta.lemma_position(id);
                        let document = lemma_index_of(index, id);
                        let item = rank::delta_candidates(index, names, scores)[at];
                        assert(all[rank::base_scores(index, ann@, points).len() + at] == item);
                        assert(all.contains(item));
                        assert(order::ranking(all).contains(item));
                        let k = choose|k: int| 0 <= k < list.len() && list[k] == item;
                        assert(index.state.documents.ids()[list[k].0 as int] == id);
                    }
                }
            },
        }
    }
}

/// What found points and documents written since give together.
pub(crate) proof fn lemma_merged<D: Fn(&[Score], &[Score]) -> Score>(
    index: MultiVectorIndex,
    ann: FdeAnn,
    dot: D,
    query: Seq<Score>,
    fde: Seq<u8>,
    count: usize,
    ef_search: usize,
    points: Seq<ScoredPoint>,
    scores: Seq<Score>,
)
    requires
        index.ok(),
        index.state.fde_ann == Some(ann),
        is_current(index.config, index.state@, fde),
        answer::is_found(dot, ann@, query, count, ef_search, points),
        answer::are_scores(
            dot,
            query,
            fde,
            answer::locations_of(index, ann.delta.ids()),
            index.config.encoding_dimension(),
            Ok::<Seq<Score>, StorageError>(scores),
        ),
    ensures
        are_candidates(
            index,
            dot,
            query,
            fde,
            rank::base_scores(index, ann@, points) + rank::delta_candidates(index, ann.delta.ids(), scores),
        ),
{
    let names = ann.delta.ids();
    let places = answer::locations_of(index, names);
    let base = rank::base_scores(index, ann@, points);
    let delta = rank::delta_candidates(index, names, scores);
    let all = base + delta;
    let wanted = answer::wanted_points(ann@, count) as usize;
    let options = answer::ann_options(
        if ef_search > wanted {
            ef_search
        } else {
            wanted
        },
    );
    assert forall|i: int, j: int| 0 <= i < j < points.len() implies (#[trigger] points[i]).id != (
    #[trigger] points[j]).id by {
        search::law_found_points(*ann.graph, dot, query, wanted, options, points, i);
    }
    lemma_base_entries(index, ann, points);
    assert forall|k: int| 0 <= k < base.len() implies (#[trigger] base[k]).0 < index.state.documents.ids().len()
        && answer::is_score(
        dot,
        query,
        fde,
        index.state.documents.values@[base[k].0 as int].fde_location,
        index.config.encoding_dimension(),
        base[k].1,
    ) && !names.contains(index.state.documents.ids()[base[k].0 as int]) by {
        assert(stems(index, ann@, points, base[k]));
        let i = choose|i: int|
            0 <= i < points.len() && ann@.live((#[trigger] points[i]).id as int) && base[k] == (
                index.state.documents.index_of(ann@.base[points[i].id as int]) as u64,
                score::negated(points[i].sort_key),
            );
        let id = ann@.base[points[i].id as int];
        let document = lemma_index_of(index, id);
        search::law_found_points(*ann.graph, dot, query, wanted, options, points, i);
        let node = ann.graph.node_of(points[i].id)->0;
        assert(points[i].id as int as u64 == points[i].id);
        assert(score::negated(score::negated(points[i].raw_score)) == points[i].raw_score);
        assert(answer::is_encoding(
            fde,
            index.state@.documents[id].fde_location,
            index.config.encoding_dimension(),
            ann.graph.vectors.vectors()[node],
        ));
        assert(!ann@.delta.contains(id));
        if names.contains(id) {
            let m = choose|m: int| 0 <= m < names.len() && names[m] == id;
            ann.delta.lemma_entry(m);
        }
    }
    ids::law_ascending_ids_are_distinct(names);
    assert forall|k: int| 0 <= k < delta.len() implies (#[trigger] delta[k]).0 < index.state.documents.ids().len()
        && answer::is_score(
        dot,
        query,
        fde,
        index.state.documents.values@[delta[k].0 as int].fde_location,
        index.config.encoding_dimension(),
        delta[k].1,
    ) && index.state.documents.ids()[delta[k].0 as int] == names[k] by {
        ann.delta.lemma_entry(k);
        assert(ann@.delta.contains(names[k]));
        let document = lemma_index_of(index, names[k]);
        assert(answer::is_score(dot, query, fde, places[k], index.config.encoding_dimension(), scores[k]));
        assert(places[k] == index.state@.documents[names[k]].fde_location);
    }
    assert forall|i: int, j: int| 0 <= i < j < all.len() implies (#[trigger] all[i]).0 != (#[trigger] all[j]).0 by {
        if j < base.len() {
            assert(base[i].0 != base[j].0);
        } else if i >= base.len() {
            assert(delta[i - base.len()] == all[i] && delta[j - base.len()] == all[j]);
            assert(names[i - base.len()] != names[j - base.len()]);
        } else {
            assert(base[i] == all[i] && delta[j - base.len()] == all[j]);
            assert(names.contains(names[j - base.len()]));
        }
    }
    assert forall|i: int| 0 <= i < all.len() implies (#[trigger] all[i]).0 < index.state.documents.ids().len()
        && answer::is_score(
        dot,
        query,
        fde,
        index.state.documents.values@[all[i].0 as int].fde_location,
        index.config.encoding_dimension(),
        all[i].1,
    ) by {
        if i < base.len() {
            assert(base[i] == all[i]);
        } else {
            assert(delta[i - base.len()] == all[i]);
        }
    }
}

/// The first of a ranking of candidates are candidates, and ranked.
proof fn lemma_ranked_candidates<D: Fn(&[Score], &[Score]) -> Score>(
    index: MultiVectorIndex,
    dot: D,
    query: Seq<Score>,
    fde: Seq<u8>,
    items: Seq<(u64, Score)>,
    n: int,
)
    requires
        are_candidates(index, dot, query, fde, items),
        0 <= n <= items.len(),
    ensures
        are_candidates(index, dot, query, fde, order::ranking(items).take(n)),
        is_ranked(order::ranking(items).take(n)),
{
    order::law_ranking(items);
    order::law_ranking_keeps_ids_apart(items);
    let all = order::ranking(items);
    let list = all.take(n);
    assert forall|i: int| 0 <= i < list.len() implies (#[trigger] list[i]).0 < index.state.documents.ids().len()
        && answer::is_score(
        dot,
        query,
        fde,
        index.state.documents.values@[list[i].0 as int].fde_location,
        index.config.encoding_dimension(),
        list[i].1,
    ) by {
        assert(all[i] == list[i]);
        assert(all.contains(all[i]));
        let k = choose|k: int| 0 <= k < items.len() && items[k] == all[i];
        assert(items[k].0 < index.state.documents.ids().len());
    }
    assert forall|i: int, j: int| 0 <= i < j < list.len() implies (#[trigger] list[i]).0 != (#[trigger] list[j]).0 by {
        assert(all[i].0 != all[j].0);
    }
    assert forall|i: int, j: int| 0 <= i <= j < list.len() implies order::ranks_before(
        #[trigger] list[i],
        #[trigger] list[j],
    ) by {
        assert(order::ranks_before(all[i], all[j]));
    }
}

/// Items with different ids below a bound are no more than the bound.
proof fn lemma_few(items: Seq<(u64, Score)>, n: nat)
    requires
        order::ids_differ(items),
        forall|i: int| 0 <= i < items.len() ==> (#[trigger] items[i]).0 < n,
    ensures
        items.len() <= n,
{
    let names: Seq<int> = items.map_values(|item: (u64, Score)| item.0 as int);
    assert(names.no_duplicates()) by {
        assert forall|i: int, j: int| 0 <= i < names.len() && 0 <= j < names.len() && i != j implies names[i] != names[j] by {
            if i < j {
                assert(items[i].0 != items[j].0);
            } else {
                assert(items[j].0 != items[i].0);
            }
        }
    }
    names.unique_seq_to_set();
    vstd::set_lib::lemma_int_range(0, n as int);
    assert(names.to_set().subset_of(vstd::set_lib::set_int_range(0, n as int)));
    vstd::set_lib::lemma_len_subset(names.to_set(), vstd::set_lib::set_int_range(0, n as int));
}

/// The candidates that a comparison with all encodings gives are documents, none
/// twice, each with the product of the query and its encoding, ranked, and as many
/// as asked for or as there are documents.
pub proof fn law_exact_candidates<D: Fn(&[Score], &[Score]) -> Score>(
    index: MultiVectorIndex,
    dot: D,
    query: Seq<Score>,
    fde: Seq<u8>,
    cap: Option<usize>,
    list: Seq<(u64, Score)>,
)
    requires
        index.ok(),
        answer::is_exact_ranking(index, dot, query, fde, cap, Ok::<Seq<(u64, Score)>, IndexError>(list)),
    ensures
        are_candidates(index, dot, query, fde, list),
        is_ranked(list),
        list.len() == match cap {
            Some(k) => rank::at_most(k as int, index.state.documents.ids().len()),
            None => index.state.documents.ids().len() as int,
        },
{
    let places = answer::locations(index);
    let dimension = index.config.encoding_dimension();
    assert(index.state.documents.keys.len() == places.len());
    if places.len() > 0 {
        let found = choose|found: Result<Seq<Score>, StorageError>|
            #[trigger] answer::are_scores(dot, query, fde, places, dimension, found) && Ok::<
                Seq<(u64, Score)>,
                IndexError,
            >(list) == match found {
                Err(e) => Err::<Seq<(u64, Score)>, IndexError>(IndexError::Io(e)),
                Ok(scores) => Ok(
                    order::ranking(rank::positioned(scores)).take(
                        match cap {
                            Some(k) => rank::at_most(k as int, scores.len()),
                            None => scores.len() as int,
                        },
                    ),
                ),
            };
        let scores = found->Ok_0;
        let items = rank::positioned(scores);
        assert forall|i: int| 0 <= i < items.len() implies answer::is_score(
            dot,
            query,
            fde,
            index.state.documents.values@[(#[trigger] items[i]).0 as int].fde_location,
            dimension,
            items[i].1,
        ) by {
            assert(answer::is_score(dot, query, fde, places[i], dimension, scores[i]));
        }
        lemma_ranked_candidates(
            index,
            dot,
            query,
            fde,
            items,
            match cap {
                Some(k) => rank::at_most(k as int, scores.len()),
                None => scores.len() as int,
            },
        );
        order::law_ranking(items);
    }
}

/// Whether a hit is a document with its exact score, the product of the query and
/// its encoding, and its metadata.
pub open spec fn is_hit_of<N, D, G, A>(
    index: MultiVectorIndex,
    kernels: Kernels<'_, N, D, G, A>,
    encoder: FdeEncoder,
    vectors: Seq<Seq<Score>>,
    segments: Segments<'_>,
    hit: Hit,
    document: int,
) -> bool where
    N: Fn(&[Score]) -> Vec<Score>,
    D: Fn(&[Score], &[Score]) -> Score,
    G: Fn(Score, Score) -> Score,
    A: Fn(Score, Score) -> Score,
 {
    &&& 0 <= document < index.state.documents.ids().len()
    &&& hit.id@ == index.state.documents.ids()[document]
    &&& late::stored_score(
        index,
        *kernels.dot,
        *kernels.greater,
        *kernels.add,
        late::normalized_rows(*kernels.normalize, vectors),
        segments.objects@,
        index.state.documents.values@[document].location,
    ) == Ok::<Score, StorageError>(hit.score)
    &&& hit.fde_score matches Some(product) && answer::is_score(
        *kernels.dot,
        answer::encoded(*kernels.normalize, *kernels.dot, *kernels.add, encoder, vectors),
        segments.fde@,
        index.state.documents.values@[document].fde_location,
        index.config.encoding_dimension(),
        product,
    )
    &&& hit.metadata@ == index.state@.documents[hit.id@].metadata
}

/// Whether a hit is a document with its scores and its metadata.
pub open spec fn is_hit<N, D, G, A>(
    index: MultiVectorIndex,
    kernels: Kernels<'_, N, D, G, A>,
    encoder: FdeEncoder,
    vectors: Seq<Seq<Score>>,
    segments: Segments<'_>,
    hit: Hit,
) -> bool where
    N: Fn(&[Score]) -> Vec<Score>,
    D: Fn(&[Score], &[Score]) -> Score,
    G: Fn(Score, Score) -> Score,
    A: Fn(Score, Score) -> Score,
 {
    exists|document: int| #[trigger] is_hit_of(index, kernels, encoder, vectors, segments, hit, document)
}

/// Whether hits are documents, none twice, each with its exact score, the product of
/// the query and its encoding, and its metadata; the best come first, of equally
/// good ones the one with the smaller id; and they are no more than asked for.
pub open spec fn are_answers<N, D, G, A>(
    index: MultiVectorIndex,
    kernels: Kernels<'_, N, D, G, A>,
    encoder: FdeEncoder,
    vectors: Seq<Seq<Score>>,
    segments: Segments<'_>,
    top_k: usize,
    hits: Seq<Hit>,
) -> bool where
    N: Fn(&[Score]) -> Vec<Score>,
    D: Fn(&[Score], &[Score]) -> Score,
    G: Fn(Score, Score) -> Score,
    A: Fn(Score, Score) -> Score,
 {
    &&& hits.len() <= top_k
    &&& forall|i: int|
        0 <= i < hits.len() ==> is_hit(index, kernels, encoder, vectors, segments, #[trigger] hits[i])
    &&& forall|i: int, j: int|
        0 <= i < j < hits.len() ==> {
            &&& (#[trigger] hits[i]).id@ != (#[trigger] hits[j]).id@
            &&& score::total_key(hits[i].score) >= score::total_key(hits[j].score)
            &&& hits[i].score == hits[j].score ==> ids::id_less(hits[i].id@, hits[j].id@)
        }
}

/// The hits among candidates.
proof fn lemma_answers<N, D, G, A>(
    index: MultiVectorIndex,
    kernels: Kernels<'_, N, D, G, A>,
    encoder: FdeEncoder,
    vectors: Seq<Seq<Score>>,
    segments: Segments<'_>,
    candidates: Seq<(u64, Score)>,
    top_k: usize,
    count: int,
    hits: Seq<Hit>,
) where
    N: Fn(&[Score]) -> Vec<Score>,
    D: Fn(&[Score], &[Score]) -> Score,
    G: Fn(Score, Score) -> Score,
    A: Fn(Score, Score) -> Score,

    requires
        index.ok(),
        count >= 0,
        are_candidates(
            index,
            *kernels.dot,
            answer::encoded(*kernels.normalize, *kernels.dot, *kernels.add, encoder, vectors),
            segments.fde@,
            candidates,
        ),
        answer::is_rescoring(
            index,
            *kernels.dot,
            *kernels.greater,
            *kernels.add,
            late::normalized_rows(*kernels.normalize, vectors),
            segments.objects@,
            candidates,
            top_k,
            count,
            Ok::<Seq<Hit>, IndexError>(hits),
        ),
    ensures
        are_answers(index, kernels, encoder, vectors, segments, top_k, hits),
{
    if candidates.len() > 0 {
        let unit = late::normalized_rows(*kernels.normalize, vectors);
        let exact = answer::exact_scores(
            index,
            *kernels.dot,
            *kernels.greater,
            *kernels.add,
            unit,
            segments.objects@,
            candidates,
            count,
        );
        let values = Seq::new(exact.len(), |i: int| exact[i]->Ok_0);
        let items = rank::rescored(candidates, values);
        let best = order::ranking(items);
        order::law_ranking(items);
        assert forall|i: int, j: int| 0 <= i < j < items.len() implies (#[trigger] items[i]).0 != (
        #[trigger] items[j]).0 by {
            assert(candidates[i].0 != candidates[j].0);
        }
        order::law_ranking_keeps_ids_apart(items);
        assert forall|i: int| 0 <= i < hits.len() implies is_hit(
            index,
            kernels,
            encoder,
            vectors,
            segments,
            #[trigger] hits[i],
        ) by {
            assert(best.contains(best[i]));
            let k = choose|k: int| 0 <= k < items.len() && items[k] == best[i];
            assert(exact[k] is Ok);
            lemma_first_score(candidates, k);
            assert(candidates[k].0 < index.state.documents.ids().len());
            assert(is_hit_of(index, kernels, encoder, vectors, segments, hits[i], candidates[k].0 as int));
        }
        ids::law_ascending_ids_are_distinct(index.state.documents.ids());
        assert forall|i: int, j: int| 0 <= i < j < hits.len() implies {
            &&& (#[trigger] hits[i]).id@ != (#[trigger] hits[j]).id@
            &&& score::total_key(hits[i].score) >= score::total_key(hits[j].score)
            &&& hits[i].score == hits[j].score ==> ids::id_less(hits[i].id@, hits[j].id@)
        } by {
            rank::law_hits_are_ordered(index, candidates, values, top_k as int, hits, i, j);
            assert(best[i].0 != best[j].0);
            assert(best.contains(best[i]) && best.contains(best[j]));
            let a = choose|a: int| 0 <= a < items.len() && items[a] == best[i];
            let b = choose|b: int| 0 <= b < items.len() && items[b] == best[j];
            assert(candidates[a].0 < index.state.documents.ids().len());
            assert(candidates[b].0 < index.state.documents.ids().len());
            assert(index.state.documents.ids()[best[i].0 as int] != index.state.documents.ids()[best[j].0 as int]);
        }
    }
}

/// A candidate is found with its own score where no other has its id.
proof fn lemma_first_score(candidates: Seq<(u64, Score)>, k: int)
    requires
        order::ids_differ(candidates),
        0 <= k < candidates.len(),
    ensures
        rank::first_score(candidates, candidates[k].0) == candidates[k].1,
    decreases candidates.len(),
{
    if k > 0 {
        assert(candidates[0].0 != candidates[k].0);
        let rest = candidates.drop_first();
        assert forall|i: int, j: int| 0 <= i < j < rest.len() implies (#[trigger] rest[i]).0 != (
        #[trigger] rest[j]).0 by {
            assert(candidates[i + 1].0 != candidates[j + 1].0);
        }
        assert(rest[k - 1] == candidates[k]);
        lemma_first_score(rest, k - 1);
    }
}

/// The candidates that survive pruning are candidates.
proof fn lemma_pruned_candidates<D: Fn(&[Score], &[Score]) -> Score>(
    index: MultiVectorIndex,
    dot: D,
    query: Seq<Score>,
    fde: Seq<u8>,
    candidates: Seq<(u64, Score)>,
    scores: Seq<Score>,
    survivors: int,
)
    requires
        are_candidates(index, dot, query, fde, candidates),
        scores.len() == candidates.len(),
        survivors >= 0,
    ensures
        are_candidates(index, dot, query, fde, rank::pruned(candidates, scores, survivors)),
{
    let items = rank::rescored(candidates, scores);
    let best = order::ranking(items);
    let list = rank::pruned(candidates, scores, survivors);
    order::law_ranking(items);
    assert forall|i: int, j: int| 0 <= i < j < items.len() implies (#[trigger] items[i]).0 != (#[trigger] items[j]).0 by {
        assert(candidates[i].0 != candidates[j].0);
    }
    order::law_ranking_keeps_ids_apart(items);
    assert forall|i: int| 0 <= i < list.len() implies candidates.contains(#[trigger] list[i]) && list[i].0 == best[i].0 by {
        assert(best.contains(best[i]));
        let k = choose|k: int| 0 <= k < items.len() && items[k] == best[i];
        lemma_first_score(candidates, k);
        assert(candidates[k] == list[i]);
    }
    assert forall|i: int| 0 <= i < list.len() implies (#[trigger] list[i]).0 < index.state.documents.ids().len()
        && answer::is_score(
        dot,
        query,
        fde,
        index.state.documents.values@[list[i].0 as int].fde_location,
        index.config.encoding_dimension(),
        list[i].1,
    ) by {
        let k = choose|k: int| 0 <= k < candidates.len() && candidates[k] == list[i];
        assert(candidates[k].0 < index.state.documents.ids().len());
    }
    assert forall|i: int, j: int| 0 <= i < j < list.len() implies (#[trigger] list[i]).0 != (#[trigger] list[j]).0 by {
        assert(best[i].0 != best[j].0);
    }
}

/// What a query over the graph answers are documents with their current scores, none
/// twice, the best first.
pub proof fn law_graph_answers<N, D, G, A>(
    index: MultiVectorIndex,
    kernels: Kernels<'_, N, D, G, A>,
    encoder: FdeEncoder,
    vectors: Seq<Seq<Score>>,
    segments: Segments<'_>,
    top_k: usize,
    candidates: Option<usize>,
    ef_search: usize,
    hits: Seq<Hit>,
) where
    N: Fn(&[Score]) -> Vec<Score>,
    D: Fn(&[Score], &[Score]) -> Score,
    G: Fn(Score, Score) -> Score,
    A: Fn(Score, Score) -> Score,

    requires
        index.ok(),
        is_current(index.config, index.state@, segments.fde@),
        answer::is_ann_query(
            index,
            kernels,
            encoder,
            vectors,
            segments,
            top_k,
            candidates,
            ef_search,
            Ok::<Seq<Hit>, IndexError>(hits),
        ),
        index.encodes_with(encoder),
    ensures
        are_answers(index, kernels, encoder, vectors, segments, top_k, hits),
{
    let query = answer::encoded(*kernels.normalize, *kernels.dot, *kernels.add, encoder, vectors);
    let unit = late::normalized_rows(*kernels.normalize, vectors);
    let budget = config::candidate_budget(top_k, candidates);
    let ranking = choose|ranking: Result<Seq<(u64, Score)>, IndexError>|
        #[trigger] answer::is_ann_ranking(
            index,
            *kernels.dot,
            query,
            segments.fde@,
            budget as usize,
            ef_search,
            ranking,
        ) && answer::is_answer(
            index,
            *kernels.dot,
            *kernels.greater,
            *kernels.add,
            unit,
            segments.objects@,
            ranking,
            top_k,
            budget,
            Ok::<Seq<Hit>, IndexError>(hits),
        );
    muvera::law_query_encoding_has_the_output_dimension(
        *kernels.dot,
        *kernels.add,
        encoder,
        unit,
        encoder.repetitions@.len(),
    );
    law_graph_candidates(index, *kernels.dot, query, segments.fde@, budget as usize, ef_search, ranking);
    lemma_answers(index, kernels, encoder, vectors, segments, ranking->Ok_0, top_k, budget, hits);
}

/// What a query over the graph with pruning answers are documents with their current
/// scores, none twice, the best first.
pub proof fn law_pruned_graph_answers<N, D, G, A>(
    index: MultiVectorIndex,
    kernels: Kernels<'_, N, D, G, A>,
    encoder: FdeEncoder,
    vectors: Seq<Seq<Score>>,
    segments: Segments<'_>,
    top_k: usize,
    candidates: usize,
    rerank_candidates: usize,
    ef_search: usize,
    hits: Seq<Hit>,
) where
    N: Fn(&[Score]) -> Vec<Score>,
    D: Fn(&[Score], &[Score]) -> Score,
    G: Fn(Score, Score) -> Score,
    A: Fn(Score, Score) -> Score,

    requires
        index.ok(),
        is_current(index.config, index.state@, segments.fde@),
        answer::is_pruned_ann_query(
            index,
            kernels,
            encoder,
            vectors,
            segments,
            top_k,
            candidates,
            rerank_candidates,
            ef_search,
            Ok::<Seq<Hit>, IndexError>(hits),
        ),
        index.encodes_with(encoder),
    ensures
        are_answers(index, kernels, encoder, vectors, segments, top_k, hits),
{
    let query = answer::encoded(*kernels.normalize, *kernels.dot, *kernels.add, encoder, vectors);
    let unit = late::normalized_rows(*kernels.normalize, vectors);
    let ranking = choose|ranking: Result<Seq<(u64, Score)>, IndexError>|
        #[trigger] answer::is_ann_ranking(
            index,
            *kernels.dot,
            query,
            segments.fde@,
            candidates,
            ef_search,
            ranking,
        ) && answer::is_answer(
            index,
            *kernels.dot,
            *kernels.greater,
            *kernels.add,
            unit,
            segments.objects@,
            answer::narrowed(
                index,
                *kernels.dot,
                *kernels.greater,
                *kernels.add,
                unit,
                ranking,
                candidates,
                rerank_candidates,
            ),
            top_k,
            rerank_candidates as int,
            Ok::<Seq<Hit>, IndexError>(hits),
        );
    muvera::law_query_encoding_has_the_output_dimension(
        *kernels.dot,
        *kernels.add,
        encoder,
        unit,
        encoder.repetitions@.len(),
    );
    law_graph_candidates(index, *kernels.dot, query, segments.fde@, candidates, ef_search, ranking);
    let list = ranking->Ok_0;
    let broad = list.take(rank::at_most(candidates as int, list.len()));
    assert(broad =~= list);
    let scores = answer::centroid_scores(index, *kernels.dot, *kernels.greater, *kernels.add, unit, broad);
    lemma_pruned_candidates(index, *kernels.dot, query, segments.fde@, broad, scores, rerank_candidates as int);
    lemma_answers(
        index,
        kernels,
        encoder,
        vectors,
        segments,
        rank::pruned(broad, scores, rerank_candidates as int),
        top_k,
        rerank_candidates as int,
        hits,
    );
}

/// What a query answers that leaves open where its candidates come from are documents
/// with their current scores, none twice, the best first.
pub proof fn law_automatic_answers<N, D, G, A>(
    index: MultiVectorIndex,
    kernels: Kernels<'_, N, D, G, A>,
    encoder: FdeEncoder,
    vectors: Seq<Seq<Score>>,
    segments: Segments<'_>,
    top_k: usize,
    candidates: Option<usize>,
    ef_search: usize,
    hits: Seq<Hit>,
) where
    N: Fn(&[Score]) -> Vec<Score>,
    D: Fn(&[Score], &[Score]) -> Score,
    G: Fn(Score, Score) -> Score,
    A: Fn(Score, Score) -> Score,

    requires
        index.ok(),
        is_current(index.config, index.state@, segments.fde@),
        answer::is_auto_query(
            index,
            kernels,
            encoder,
            vectors,
            segments,
            top_k,
            candidates,
            ef_search,
            Ok::<Seq<Hit>, IndexError>(hits),
        ),
        index.encodes_with(encoder),
    ensures
        are_answers(index, kernels, encoder, vectors, segments, top_k, hits),
{
    if index.chosen_backend() is Muvera {
        law_query_answers(index, kernels, encoder, vectors, segments, top_k, candidates, hits);
    } else {
        law_graph_answers(index, kernels, encoder, vectors, segments, top_k, candidates, ef_search, hits);
    }
}

/// A query that leaves open where its candidates come from is the query over all
/// encodings, where no graph is ready, and the query over the graph, where one is.
pub proof fn law_automatic_query_is_one_of_the_others<N, D, G, A>(
    index: MultiVectorIndex,
    kernels: Kernels<'_, N, D, G, A>,
    encoder: FdeEncoder,
    vectors: Seq<Seq<Score>>,
    segments: Segments<'_>,
    top_k: usize,
    candidates: Option<usize>,
    ef_search: usize,
    r: Result<Seq<Hit>, IndexError>,
) where
    N: Fn(&[Score]) -> Vec<Score>,
    D: Fn(&[Score], &[Score]) -> Score,
    G: Fn(Score, Score) -> Score,
    A: Fn(Score, Score) -> Score,

    requires
        top_k > 0,
        ef_search > 0,
    ensures
        answer::is_auto_query(index, kernels, encoder, vectors, segments, top_k, candidates, ef_search, r) <==> if index
            .chosen_backend() is Hnsw {
            answer::is_ann_query(index, kernels, encoder, vectors, segments, top_k, candidates, ef_search, r)
        } else {
            answer::is_query(index, kernels, encoder, vectors, segments, top_k, candidates, r)
        },
{
}

/// What a query over all encodings answers are documents with their scores, none
/// twice, the best first.
pub proof fn law_query_answers<N, D, G, A>(
    index: MultiVectorIndex,
    kernels: Kernels<'_, N, D, G, A>,
    encoder: FdeEncoder,
    vectors: Seq<Seq<Score>>,
    segments: Segments<'_>,
    top_k: usize,
    candidates: Option<usize>,
    hits: Seq<Hit>,
) where
    N: Fn(&[Score]) -> Vec<Score>,
    D: Fn(&[Score], &[Score]) -> Score,
    G: Fn(Score, Score) -> Score,
    A: Fn(Score, Score) -> Score,

    requires
        index.ok(),
        answer::is_query(
            index,
            kernels,
            encoder,
            vectors,
            segments,
            top_k,
            candidates,
            Ok::<Seq<Hit>, IndexError>(hits),
        ),
    ensures
        are_answers(index, kernels, encoder, vectors, segments, top_k, hits),
{
    let query = answer::encoded(*kernels.normalize, *kernels.dot, *kernels.add, encoder, vectors);
    let unit = late::normalized_rows(*kernels.normalize, vectors);
    let budget = config::candidate_budget(top_k, candidates);
    let ranking = choose|ranking: Result<Seq<(u64, Score)>, IndexError>|
        #[trigger] answer::is_exact_ranking(
            index,
            *kernels.dot,
            query,
            segments.fde@,
            Some(budget as usize),
            ranking,
        ) && answer::is_answer(
            index,
            *kernels.dot,
            *kernels.greater,
            *kernels.add,
            unit,
            segments.objects@,
            ranking,
            top_k,
            budget,
            Ok::<Seq<Hit>, IndexError>(hits),
        );
    law_exact_candidates(index, *kernels.dot, query, segments.fde@, Some(budget as usize), ranking->Ok_0);
    lemma_answers(index, kernels, encoder, vectors, segments, ranking->Ok_0, top_k, budget, hits);
}

/// Whether hits are all that a query over all encodings owes, given its candidates:
/// these are the documents that rank first by the products of the query and their
/// encodings, as many as asked for; the hits are documents with their scores, none
/// twice, the best first, as many as asked for; and no candidate that is not a hit
/// scores better than one.
pub open spec fn is_whole_answer<N, D, G, A>(
    index: MultiVectorIndex,
    kernels: Kernels<'_, N, D, G, A>,
    encoder: FdeEncoder,
    vectors: Seq<Seq<Score>>,
    segments: Segments<'_>,
    top_k: usize,
    budget: int,
    list: Seq<(u64, Score)>,
    hits: Seq<Hit>,
) -> bool where
    N: Fn(&[Score]) -> Vec<Score>,
    D: Fn(&[Score], &[Score]) -> Score,
    G: Fn(Score, Score) -> Score,
    A: Fn(Score, Score) -> Score,
 {
    let query = answer::encoded(*kernels.normalize, *kernels.dot, *kernels.add, encoder, vectors);
    &&& list.len() == rank::at_most(budget, index.state.documents.ids().len())
    &&& are_candidates(index, *kernels.dot, query, segments.fde@, list)
    &&& is_ranked(list)
    &&& forall|document: int|
        0 <= document < index.state.documents.ids().len() && !has_document(
            index,
            list,
            #[trigger] index.state.documents.ids()[document],
        ) ==> ranks_behind(index, *kernels.dot, query, segments.fde@, list, document)
    &&& hits.len() == rank::at_most(top_k as int, index.state.documents.ids().len())
    &&& are_answers(index, kernels, encoder, vectors, segments, top_k, hits)
    &&& forall|k: int, h: int|
        0 <= k < list.len() && 0 <= h < hits.len() && !is_named(
            hits,
            index.state.documents.ids()[(#[trigger] list[k]).0 as int],
        ) ==> scores_no_better(index, kernels, vectors, segments, list[k].0 as int, #[trigger] hits[h])
}

/// Whether a hit has an id.
pub open spec fn is_named(hits: Seq<Hit>, id: Seq<char>) -> bool {
    exists|h: int| 0 <= h < hits.len() && (#[trigger] hits[h]).id@ == id
}

/// Whether a document ranks behind all candidates by the product of the query and its
/// encoding.
pub open spec fn ranks_behind<D: Fn(&[Score], &[Score]) -> Score>(
    index: MultiVectorIndex,
    dot: D,
    query: Seq<Score>,
    fde: Seq<u8>,
    list: Seq<(u64, Score)>,
    document: int,
) -> bool {
    exists|product: Score| #[trigger]
        answer::is_score(
            dot,
            query,
            fde,
            index.state.documents.values@[document].fde_location,
            index.config.encoding_dimension(),
            product,
        ) && forall|k: int| 0 <= k < list.len() ==> order::ranks_before(#[trigger] list[k], (document as u64, product))
}

/// Whether a document can be scored exactly, and no better than a hit.
pub open spec fn scores_no_better<N, D, G, A>(
    index: MultiVectorIndex,
    kernels: Kernels<'_, N, D, G, A>,
    vectors: Seq<Seq<Score>>,
    segments: Segments<'_>,
    document: int,
    hit: Hit,
) -> bool where
    N: Fn(&[Score]) -> Vec<Score>,
    D: Fn(&[Score], &[Score]) -> Score,
    G: Fn(Score, Score) -> Score,
    A: Fn(Score, Score) -> Score,
 {
    late::stored_score(
        index,
        *kernels.dot,
        *kernels.greater,
        *kernels.add,
        late::normalized_rows(*kernels.normalize, vectors),
        segments.objects@,
        index.state.documents.values@[document].location,
    ) matches Ok(exact) && score::total_key(hit.score) >= score::total_key(exact)
}

/// A query over all encodings answers with all that it owes; a query that is well made
/// fails only where a record cannot be read.
pub proof fn law_whole_query<N, D, G, A>(
    index: MultiVectorIndex,
    kernels: Kernels<'_, N, D, G, A>,
    encoder: FdeEncoder,
    vectors: Seq<Seq<Score>>,
    segments: Segments<'_>,
    top_k: usize,
    candidates: Option<usize>,
    r: Result<Seq<Hit>, IndexError>,
) where
    N: Fn(&[Score]) -> Vec<Score>,
    D: Fn(&[Score], &[Score]) -> Score,
    G: Fn(Score, Score) -> Score,
    A: Fn(Score, Score) -> Score,

    requires
        index.ok(),
        index.takes(vectors),
        top_k > 0,
        answer::is_query(index, kernels, encoder, vectors, segments, top_k, candidates, r),
    ensures
        match r {
            Ok(hits) => exists|list: Seq<(u64, Score)>| #[trigger]
                is_whole_answer(
                    index,
                    kernels,
                    encoder,
                    vectors,
                    segments,
                    top_k,
                    config::candidate_budget(top_k, candidates),
                    list,
                    hits,
                ),
            Err(e) => e is Io && index.state.documents.ids().len() > 0,
        },
{
    let query = answer::encoded(*kernels.normalize, *kernels.dot, *kernels.add, encoder, vectors);
    let unit = late::normalized_rows(*kernels.normalize, vectors);
    let budget = config::candidate_budget(top_k, candidates);
    let ranking = choose|ranking: Result<Seq<(u64, Score)>, IndexError>|
        #[trigger] answer::is_exact_ranking(
            index,
            *kernels.dot,
            query,
            segments.fde@,
            Some(budget as usize),
            ranking,
        ) && answer::is_answer(
            index,
            *kernels.dot,
            *kernels.greater,
            *kernels.add,
            unit,
            segments.objects@,
            ranking,
            top_k,
            budget,
            r,
        );
    assert(index.state.documents.keys.len() == answer::locations(index).len());
    if let Ok(hits) = r {
        let list = ranking->Ok_0;
        law_exact_candidates(index, *kernels.dot, query, segments.fde@, Some(budget as usize), list);
        lemma_answers(index, kernels, encoder, vectors, segments, list, top_k, budget, hits);
        lemma_outside(index, *kernels.dot, query, segments.fde@, budget as usize, list);
        lemma_best_candidates(index, kernels, vectors, segments, list, top_k, budget, hits);
        assert(is_whole_answer(index, kernels, encoder, vectors, segments, top_k, budget, list, hits));
    } else if ranking is Ok {
        law_exact_candidates(index, *kernels.dot, query, segments.fde@, Some(budget as usize), ranking->Ok_0);
    }
}

/// Documents outside the first of an exact ranking rank behind them.
proof fn lemma_outside<D: Fn(&[Score], &[Score]) -> Score>(
    index: MultiVectorIndex,
    dot: D,
    query: Seq<Score>,
    fde: Seq<u8>,
    budget: usize,
    list: Seq<(u64, Score)>,
)
    requires
        index.ok(),
        answer::is_exact_ranking(index, dot, query, fde, Some(budget), Ok::<Seq<(u64, Score)>, IndexError>(list)),
    ensures
        forall|document: int|
            0 <= document < index.state.documents.ids().len() && !has_document(
                index,
                list,
                #[trigger] index.state.documents.ids()[document],
            ) ==> ranks_behind(index, dot, query, fde, list, document),
{
    let places = answer::locations(index);
    let dimension = index.config.encoding_dimension();
    assert(index.state.documents.keys.len() == places.len());
    assert forall|document: int|
        0 <= document < index.state.documents.ids().len() && !has_document(
            index,
            list,
            #[trigger] index.state.documents.ids()[document],
        ) implies ranks_behind(index, dot, query, fde, list, document) by {
        let found = choose|found: Result<Seq<Score>, StorageError>|
            #[trigger] answer::are_scores(dot, query, fde, places, dimension, found) && Ok::<
                Seq<(u64, Score)>,
                IndexError,
            >(list) == match found {
                Err(e) => Err::<Seq<(u64, Score)>, IndexError>(IndexError::Io(e)),
                Ok(scores) => Ok(
                    order::ranking(rank::positioned(scores)).take(rank::at_most(budget as int, scores.len())),
                ),
            };
        let scores = found->Ok_0;
        let items = rank::positioned(scores);
        let all = order::ranking(items);
        order::law_ranking(items);
        let item = (document as u64, scores[document]);
        assert(items[document] == item);
        assert(items.contains(item));
        assert(all.contains(item));
        let at = choose|at: int| 0 <= at < all.len() && all[at] == item;
        if at < list.len() {
            assert(list[at] == item);
        }
        assert(answer::is_score(dot, query, fde, places[document], dimension, scores[document]));
        assert forall|k: int| 0 <= k < list.len() implies order::ranks_before(
            #[trigger] list[k],
            (document as u64, scores[document]),
        ) by {
            assert(order::ranks_before(all[k], all[at]));
        }
    }
}

/// The hits among candidates are the best of them.
proof fn lemma_best_candidates<N, D, G, A>(
    index: MultiVectorIndex,
    kernels: Kernels<'_, N, D, G, A>,
    vectors: Seq<Seq<Score>>,
    segments: Segments<'_>,
    list: Seq<(u64, Score)>,
    top_k: usize,
    budget: int,
    hits: Seq<Hit>,
) where
    N: Fn(&[Score]) -> Vec<Score>,
    D: Fn(&[Score], &[Score]) -> Score,
    G: Fn(Score, Score) -> Score,
    A: Fn(Score, Score) -> Score,

    requires
        index.ok(),
        top_k <= budget,
        list.len() == rank::at_most(budget, index.state.documents.ids().len()),
        answer::is_rescoring(
            index,
            *kernels.dot,
            *kernels.greater,
            *kernels.add,
            late::normalized_rows(*kernels.normalize, vectors),
            segments.objects@,
            list,
            top_k,
            budget,
            Ok::<Seq<Hit>, IndexError>(hits),
        ),
    ensures
        hits.len() == rank::at_most(top_k as int, index.state.documents.ids().len()),
        forall|k: int, h: int|
            0 <= k < list.len() && 0 <= h < hits.len() && !is_named(
                hits,
                index.state.documents.ids()[(#[trigger] list[k]).0 as int],
            ) ==> scores_no_better(index, kernels, vectors, segments, list[k].0 as int, #[trigger] hits[h]),
{
    if list.len() > 0 {
        let exact = answer::exact_scores(
            index,
            *kernels.dot,
            *kernels.greater,
            *kernels.add,
            late::normalized_rows(*kernels.normalize, vectors),
            segments.objects@,
            list,
            budget,
        );
        let values = Seq::new(exact.len(), |i: int| exact[i]->Ok_0);
        let items = rank::rescored(list, values);
        let best = order::ranking(items);
        order::law_ranking(items);
        assert forall|k: int, h: int|
            0 <= k < list.len() && 0 <= h < hits.len() && !is_named(
                hits,
                index.state.documents.ids()[(#[trigger] list[k]).0 as int],
            ) implies scores_no_better(index, kernels, vectors, segments, list[k].0 as int, #[trigger] hits[h]) by {
            assert(exact[k] is Ok);
            assert(items.contains(items[k]));
            assert(best.contains(items[k]));
            let p = choose|p: int| 0 <= p < best.len() && best[p] == items[k];
            if p < hits.len() {
                assert(hits[p].id@ == index.state.documents.ids()[list[k].0 as int]);
            }
            assert(order::ranks_before(best[h], best[p]));
            assert(hits[h].score == best[h].1);
        }
    }
}

} // verus!
