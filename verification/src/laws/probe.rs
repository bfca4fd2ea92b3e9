//! What queries by centroids find: which documents they reach, and which of those they
//! answer with.

use vstd::prelude::*;
use crate::arith;
use crate::config;
use crate::config::IndexError;
use crate::engine::answer;
use crate::engine::answer::Segments;
use crate::engine::index::MultiVectorIndex;
use crate::engine::late;
use crate::engine::late::Kernels;
use crate::engine::nearest;
use crate::engine::rank;
use crate::engine::rank::Hit;
use crate::laws::best;
use crate::laws::best::are_best_of;
use crate::laws::kmeans::units;
use crate::laws::late::{centroid_interaction, law_centroid_score_sums_the_greatest_products};
use crate::laws::sums::beats;
use crate::muvera;
use crate::muvera::FdeEncoder;
use crate::order;
use crate::score::Score;

verus! {

/// The centroids of a codebook, each with its product with a vector.
pub open spec fn scored_centroids<D: Fn(&[Score], &[Score]) -> Score>(
    dot: D,
    codebook: Seq<Seq<Score>>,
    v: Seq<Score>,
) -> Seq<(u64, Score)> {
    Seq::new(codebook.len(), |c: int| (c as u64, arith::measure(dot, v, codebook[c])))
}

/// Whether a vector probes a centroid: fewer centroids than it probes have a greater
/// product with it, or the same and a smaller number. It probes at least one.
pub open spec fn probes_centroid<D: Fn(&[Score], &[Score]) -> Score>(
    dot: D,
    codebook: Seq<Seq<Score>>,
    v: Seq<Score>,
    probes: int,
    c: int,
) -> bool {
    let all = scored_centroids(dot, codebook, v);
    &&& 0 <= c < codebook.len()
    &&& all.filter(|other: (u64, Score)| beats(other, all[c])).len() < (if probes > 1 {
        probes
    } else {
        1
    })
}

/// The centroids that a row probes are the best of the row.
pub proof fn law_probed_centroids_are_the_best<D: Fn(&[Score], &[Score]) -> Score>(
    dot: D,
    codebook: Seq<Seq<Score>>,
    v: Seq<Score>,
    probes: int,
    c: int,
)
    requires
        codebook.len() <= u32::MAX,
    ensures
        rank::probed(late::products(dot, v, codebook), probes, c) <==> probes_centroid(dot, codebook, v, probes, c),
{
    let row = late::products(dot, v, codebook);
    let items = rank::positioned(row);
    let all = scored_centroids(dot, codebook, v);
    assert(items =~= all);
    assert(order::ids_differ(items));
    let ranked = order::ranking(items);
    order::law_ranking(items);
    let limit = if probes > 1 {
        probes
    } else {
        1
    };
    if rank::probed(row, probes, c) {
        let k = choose|k: int| 0 <= k < rank::at_most(limit, row.len()) && (#[trigger] ranked[k]).0 == c;
        assert(ranked.contains(ranked[k]));
        let x = choose|x: int| 0 <= x < items.len() && items[x] == ranked[k];
        best::law_rank_is_the_number_of_better_items(items, k);
        assert(all[c] == ranked[k]);
    }
    if probes_centroid(dot, codebook, v, probes, c) {
        assert(items.contains(items[c]));
        assert(ranked.contains(items[c]));
        let k = choose|k: int| 0 <= k < ranked.len() && ranked[k] == items[c];
        best::law_rank_is_the_number_of_better_items(items, k);
        assert(ranked[k].0 == c);
    }
}

/// Whether documents are those that a query reaches: each that has a vector near a
/// centroid that some vector of the query probes, and no other, in the order of the ids.
pub open spec fn are_reached<D: Fn(&[Score], &[Score]) -> Score>(
    index: MultiVectorIndex,
    dot: D,
    query: Seq<Seq<Score>>,
    probes: int,
    documents: Seq<usize>,
) -> bool {
    &&& forall|i: int, j: int| 0 <= i < j < documents.len() ==> #[trigger] documents[i] < #[trigger] documents[j]
    &&& forall|d: usize| #[trigger] documents.contains(d) ==> d < index.state.documents.values@.len()
    &&& forall|d: usize, q: int, k: int|
        0 <= q < query.len() && d < index.state.documents.values@.len() && 0 <= k
            < index.state.documents.values@[d as int].centroid_ids@.len() && probes_centroid(
            dot,
            index.state@.codebook,
            #[trigger] query[q],
            probes,
            #[trigger] index.state.documents.values@[d as int].centroid_ids@[k] as int,
        ) ==> documents.contains(d)
    &&& forall|d: usize| #[trigger]
        documents.contains(d) ==> exists|q: int, k: int|
            0 <= q < query.len() && 0 <= k < index.state.documents.values@[d as int].centroid_ids@.len()
                && probes_centroid(
                dot,
                index.state@.codebook,
                #[trigger] query[q],
                probes,
                #[trigger] index.state.documents.values@[d as int].centroid_ids@[k] as int,
            )
}

/// Every vector of a query probes: the documents found by centroids are those with a
/// vector near a centroid that any of them probes.
pub proof fn law_every_vector_probes<D: Fn(&[Score], &[Score]) -> Score>(
    index: MultiVectorIndex,
    dot: D,
    query: Seq<Seq<Score>>,
    probes: int,
    documents: Seq<usize>,
)
    requires
        index.ok(),
        rank::is_reached(
            index,
            late::centroid_products(dot, query, index.state@.codebook),
            probes,
            documents,
        ),
    ensures
        are_reached(index, dot, query, probes, documents),
{
    let codebook = index.state@.codebook;
    let table = late::centroid_products(dot, query, codebook);
    let values = index.state.documents.values@;
    let names = index.state.documents.ids();
    assert(names.len() == values.len());
    assert forall|d: usize, q: int, k: int|
        0 <= q < query.len() && d < values.len() && 0 <= k < values[d as int].centroid_ids@.len() && probes_centroid(
            dot,
            codebook,
            #[trigger] query[q],
            probes,
            #[trigger] values[d as int].centroid_ids@[k] as int,
        ) implies documents.contains(d) by {
        let c = values[d as int].centroid_ids@[k];
        index.state.documents.lemma_entry(d as int);
        let id = names[d as int];
        let record = index.state@.documents[id];
        assert(index.state@.documents.dom().contains(id));
        assert(record.centroid_ids.contains(c));
        assert(record.unique_centroids.contains(c));
        assert(index.state@.postings[c as int].contains(id));
        law_probed_centroids_are_the_best(dot, codebook, query[q], probes, c as int);
        assert(table[q] == late::products(dot, query[q], codebook));
        assert(rank::selected(table, probes, c as int));
        assert(rank::reached(index, table, probes, d as int));
    }
    assert forall|d: usize| #[trigger] documents.contains(d) implies exists|q: int, k: int|
        0 <= q < query.len() && 0 <= k < values[d as int].centroid_ids@.len() && probes_centroid(
            dot,
            codebook,
            #[trigger] query[q],
            probes,
            #[trigger] values[d as int].centroid_ids@[k] as int,
        ) by {
        assert(rank::reached(index, table, probes, d as int));
        let id = names[d as int];
        index.state.documents.lemma_entry(d as int);
        let c = choose|c: int|
            0 <= c < index.state@.postings.len() && rank::selected(table, probes, c)
                && #[trigger] index.state@.postings[c].contains(id);
        let record = index.state@.documents[id];
        assert(record.unique_centroids.contains(c as u32));
        assert(record.centroid_ids.contains(c as u32));
        let k = choose|k: int| 0 <= k < record.centroid_ids.len() && record.centroid_ids[k] == c as u32;
        let q = choose|q: int| 0 <= q < table.len() && rank::probed(#[trigger] table[q], probes, c);
        law_probed_centroids_are_the_best(dot, codebook, query[q], probes, c);
        assert(table[q] == late::products(dot, query[q], codebook));
        assert(values[d as int].centroid_ids@[k] == c as u32);
        assert(probes_centroid(dot, codebook, query[q], probes, values[d as int].centroid_ids@[k] as int));
    }
}

/// The exact scores of documents, where their records can be read.
pub open spec fn exact_items<N, D, G, A>(
    index: MultiVectorIndex,
    kernels: Kernels<'_, N, D, G, A>,
    vectors: Seq<Seq<Score>>,
    objects: Seq<u8>,
    list: Seq<(u64, Score)>,
) -> Seq<(u64, Score)> where
    N: Fn(&[Score]) -> Vec<Score>,
    D: Fn(&[Score], &[Score]) -> Score,
    G: Fn(Score, Score) -> Score,
    A: Fn(Score, Score) -> Score,
 {
    list.map_values(
        |item: (u64, Score)|
            (
                item.0,
                late::stored_score(
                    index,
                    *kernels.dot,
                    *kernels.greater,
                    *kernels.add,
                    units(*kernels.normalize, vectors),
                    objects,
                    index.state.documents.values@[item.0 as int].location,
                )->Ok_0,
            ),
    )
}

/// Whether hits are the best of candidates by their exact scores, each under its name,
/// with the score by which it became a candidate and its metadata.
pub open spec fn are_best_hits<N, D, G, A>(
    index: MultiVectorIndex,
    kernels: Kernels<'_, N, D, G, A>,
    vectors: Seq<Seq<Score>>,
    objects: Seq<u8>,
    list: Seq<(u64, Score)>,
    top_k: int,
    hits: Seq<Hit>,
) -> bool where
    N: Fn(&[Score]) -> Vec<Score>,
    D: Fn(&[Score], &[Score]) -> Score,
    G: Fn(Score, Score) -> Score,
    A: Fn(Score, Score) -> Score,
 {
    let exact = exact_items(index, kernels, vectors, objects, list);
    &&& forall|k: int|
        0 <= k < list.len() ==> late::stored_score(
            index,
            *kernels.dot,
            *kernels.greater,
            *kernels.add,
            units(*kernels.normalize, vectors),
            objects,
            index.state.documents.values@[(#[trigger] list[k]).0 as int].location,
        ) is Ok
    &&& exists|found: Seq<(u64, Score)>| #[trigger]
        are_best_of(exact, top_k, found) && hits.len() == found.len() && forall|h: int|
            0 <= h < hits.len() ==> {
                &&& (#[trigger] hits[h]).id@ == index.state.documents.keys@[found[h].0 as int]@
                &&& hits[h].score == found[h].1
                &&& hits[h].metadata@ == index.state.documents.values@[found[h].0 as int].metadata@
                &&& hits[h].fde_score matches Some(first) && list.contains((found[h].0, first))
            }
}

/// Whether candidates are documents, none twice.
pub open spec fn are_distinct_documents(index: MultiVectorIndex, list: Seq<(u64, Score)>) -> bool {
    &&& order::ids_differ(list)
    &&& forall|k: int| 0 <= k < list.len() ==> (#[trigger] list[k]).0 < index.state.documents.values@.len()
}

proof fn lemma_first_score(list: Seq<(u64, Score)>, k: int)
    requires
        0 <= k < list.len(),
        order::ids_differ(list),
    ensures
        rank::first_score(list, list[k].0) == list[k].1,
    decreases list.len(),
{
    if k > 0 {
        let rest = list.drop_first();
        assert(list[0].0 != list[k].0);
        assert(order::ids_differ(rest)) by {
            assert forall|i: int, j: int| 0 <= i < j < rest.len() implies (#[trigger] rest[i]).0 != (
            #[trigger] rest[j]).0 by {
                assert(rest[i] == list[i + 1] && rest[j] == list[j + 1]);
            }
        }
        lemma_first_score(rest, k - 1);
        assert(rest[k - 1] == list[k]);
    }
}

/// Rescoring answers with the best of the first candidates by their exact scores.
pub proof fn law_rescoring_finds_the_best<N, D, G, A>(
    index: MultiVectorIndex,
    kernels: Kernels<'_, N, D, G, A>,
    vectors: Seq<Seq<Score>>,
    objects: Seq<u8>,
    candidates: Seq<(u64, Score)>,
    top_k: usize,
    count: int,
    hits: Seq<Hit>,
) where
    N: Fn(&[Score]) -> Vec<Score>,
    D: Fn(&[Score], &[Score]) -> Score,
    G: Fn(Score, Score) -> Score,
    A: Fn(Score, Score) -> Score,

    requires
        index.ok(),
        count >= 0,
        are_distinct_documents(index, candidates),
        answer::is_rescoring(
            index,
            *kernels.dot,
            *kernels.greater,
            *kernels.add,
            late::normalized_rows(*kernels.normalize, vectors),
            objects,
            candidates,
            top_k,
            count,
            Ok::<Seq<Hit>, IndexError>(hits),
        ),
    ensures
        are_best_hits(
            index,
            kernels,
            vectors,
            objects,
            candidates.take(if count < candidates.len() { count } else { candidates.len() as int }),
            top_k as int,
            hits,
        ),
{
    let n = if count < candidates.len() {
        count
    } else {
        candidates.len() as int
    };
    let list = candidates.take(n);
    let unit = late::normalized_rows(*kernels.normalize, vectors);
    assert(unit =~= units(*kernels.normalize, vectors));
    let exact = exact_items(index, kernels, vectors, objects, list);
    if candidates.len() == 0 {
        assert(exact =~= Seq::empty());
        assert(are_best_of(exact, top_k as int, Seq::empty()));
    } else {
        let scores = answer::exact_scores(
            index,
            *kernels.dot,
            *kernels.greater,
            *kernels.add,
            unit,
            objects,
            candidates,
            count,
        );
        let values = Seq::new(scores.len(), |i: int| scores[i]->Ok_0);
        let items = rank::rescored(candidates, values);
        assert(items =~= exact);
        assert(order::ids_differ(items)) by {
            assert forall|i: int, j: int| 0 <= i < j < items.len() implies (#[trigger] items[i]).0 != (
            #[trigger] items[j]).0 by {
                assert(candidates[i].0 != candidates[j].0);
            }
        }
        order::law_ranking(items);
        best::law_rankings_begin_with_the_best(items, top_k as int);
        let found = order::ranking(items).take(rank::at_most(top_k as int, items.len()));
        assert(are_best_of(exact, top_k as int, found));
        assert forall|k: int| 0 <= k < list.len() implies late::stored_score(
            index,
            *kernels.dot,
            *kernels.greater,
            *kernels.add,
            units(*kernels.normalize, vectors),
            objects,
            index.state.documents.values@[(#[trigger] list[k]).0 as int].location,
        ) is Ok by {
            assert(scores[k] is Ok);
        }
        assert forall|h: int| 0 <= h < hits.len() implies {
            &&& (#[trigger] hits[h]).id@ == index.state.documents.keys@[found[h].0 as int]@
            &&& hits[h].score == found[h].1
            &&& hits[h].metadata@ == index.state.documents.values@[found[h].0 as int].metadata@
            &&& hits[h].fde_score matches Some(first) && list.contains((found[h].0, first))
        } by {
            assert(items.contains(found[h]));
            let k = choose|k: int| 0 <= k < items.len() && items[k] == found[h];
            lemma_first_score(candidates, k);
            assert(list[k] == candidates[k]);
            assert(candidates[k].0 < index.state.documents.values@.len());
            index.state.documents.lemma_entry(found[h].0 as int);
            assert(order::ranking(items)[h] == found[h]);
        }
    }
}

/// A query by probes reaches all documents near what any of its vectors probes, takes
/// the best of them by their centroids as candidates, and answers with the best of
/// those by their exact scores.
pub proof fn law_probed_queries_find_the_best<N, D, G, A>(
    index: MultiVectorIndex,
    kernels: Kernels<'_, N, D, G, A>,
    vectors: Seq<Seq<Score>>,
    objects: Seq<u8>,
    top_k: usize,
    candidates: Option<usize>,
    probes: usize,
    hits: Seq<Hit>,
) where
    N: Fn(&[Score]) -> Vec<Score>,
    D: Fn(&[Score], &[Score]) -> Score,
    G: Fn(Score, Score) -> Score,
    A: Fn(Score, Score) -> Score,

    requires
        index.ok(),
        answer::is_probed_query(
            index,
            kernels,
            vectors,
            objects,
            top_k,
            candidates,
            probes,
            Ok::<Seq<Hit>, IndexError>(hits),
        ),
    ensures
        exists|documents: Seq<usize>, list: Seq<(u64, Score)>|
            {
                &&& #[trigger] are_reached(
                    index,
                    *kernels.dot,
                    units(*kernels.normalize, vectors),
                    probes as int,
                    documents,
                )
                &&& are_best_of(
                    documents.map_values(
                        |d: usize|
                            (
                                d as u64,
                                centroid_interaction(
                                    *kernels.dot,
                                    *kernels.greater,
                                    *kernels.add,
                                    units(*kernels.normalize, vectors),
                                    index.state@.codebook,
                                    index.state.documents.values@[d as int].unique_centroids@,
                                ),
                            ),
                    ),
                    config::candidate_budget(top_k, candidates),
                    list,
                )
                &&& #[trigger] are_best_hits(index, kernels, vectors, objects, list, top_k as int, hits)
            },
{
    let unit = late::normalized_rows(*kernels.normalize, vectors);
    assert(unit =~= units(*kernels.normalize, vectors));
    let codebook = index.state@.codebook;
    let budget = config::candidate_budget(top_k, candidates);
    let documents = choose|documents: Seq<usize>|
        #[trigger] rank::is_reached(
            index,
            late::centroid_products(*kernels.dot, unit, codebook),
            probes as int,
            documents,
        ) && answer::is_rescoring(
            index,
            *kernels.dot,
            *kernels.greater,
            *kernels.add,
            unit,
            objects,
            order::ranking(
                rank::rescored(
                    answer::unscored(documents),
                    answer::centroid_scores(
                        index,
                        *kernels.dot,
                        *kernels.greater,
                        *kernels.add,
                        unit,
                        answer::unscored(documents),
                    ),
                ),
            ),
            top_k,
            budget,
            Ok::<Seq<Hit>, IndexError>(hits),
        );
    law_every_vector_probes(index, *kernels.dot, unit, probes as int, documents);
    let plain = answer::unscored(documents);
    let scores = answer::centroid_scores(index, *kernels.dot, *kernels.greater, *kernels.add, unit, plain);
    let items = rank::rescored(plain, scores);
    let goal = documents.map_values(
        |d: usize|
            (
                d as u64,
                centroid_interaction(
                    *kernels.dot,
                    *kernels.greater,
                    *kernels.add,
                    unit,
                    codebook,
                    index.state.documents.values@[d as int].unique_centroids@,
                ),
            ),
    );
    assert forall|i: int| 0 <= i < documents.len() implies items[i] == goal[i] by {
        let d = documents[i];
        assert(documents.contains(d));
        lemma_known_centroids(index, d as int);
        law_centroid_score_sums_the_greatest_products(
            *kernels.dot,
            *kernels.greater,
            *kernels.add,
            unit,
            codebook,
            index.state.documents.values@[d as int].unique_centroids@,
        );
    }
    assert(items =~= goal);
    assert(order::ids_differ(items)) by {
        assert forall|i: int, j: int| 0 <= i < j < items.len() implies (#[trigger] items[i]).0 != (
        #[trigger] items[j]).0 by {
            assert(documents[i] < documents[j]);
        }
    }
    let ranked = order::ranking(items);
    order::law_ranking(items);
    order::law_ranking_keeps_ids_apart(items);
    best::law_rankings_begin_with_the_best(items, budget);
    assert(are_distinct_documents(index, ranked)) by {
        assert forall|k: int| 0 <= k < ranked.len() implies (#[trigger] ranked[k]).0
            < index.state.documents.values@.len() by {
            assert(ranked.contains(ranked[k]));
            let x = choose|x: int| 0 <= x < items.len() && items[x] == ranked[k];
            assert(documents.contains(documents[x]));
        }
    }
    law_rescoring_finds_the_best(index, kernels, vectors, objects, ranked, top_k, budget, hits);
}

proof fn lemma_known_centroids(index: MultiVectorIndex, d: int)
    requires
        index.ok(),
        0 <= d < index.state.documents.values@.len(),
    ensures
        forall|k: int|
            0 <= k < index.state.documents.values@[d].unique_centroids@.len() ==> (
            #[trigger] index.state.documents.values@[d].unique_centroids@[k]) < index.state@.codebook.len(),
{
    index.state.documents.lemma_entry(d);
    let id = index.state.documents.ids()[d];
    let record = index.state@.documents[id];
    assert(index.state@.documents.dom().contains(id));
    let unique = record.unique_centroids;
    assert forall|k: int| 0 <= k < unique.len() implies (#[trigger] unique[k]) < index.state@.codebook.len() by {
        assert(unique.contains(unique[k]));
        assert(record.centroid_ids.contains(unique[k]));
        let m = choose|m: int| 0 <= m < record.centroid_ids.len() && record.centroid_ids[m] == unique[k];
        assert(record.centroid_ids[m] < index.state@.codebook.len());
    }
}

/// What the centroids of documents say of candidates.
pub open spec fn centroid_items<N, D, G, A>(
    index: MultiVectorIndex,
    kernels: Kernels<'_, N, D, G, A>,
    vectors: Seq<Seq<Score>>,
    list: Seq<(u64, Score)>,
) -> Seq<(u64, Score)> where
    N: Fn(&[Score]) -> Vec<Score>,
    D: Fn(&[Score], &[Score]) -> Score,
    G: Fn(Score, Score) -> Score,
    A: Fn(Score, Score) -> Score,
 {
    list.map_values(
        |item: (u64, Score)|
            (
                item.0,
                centroid_interaction(
                    *kernels.dot,
                    *kernels.greater,
                    *kernels.add,
                    units(*kernels.normalize, vectors),
                    index.state@.codebook,
                    index.state.documents.values@[item.0 as int].unique_centroids@,
                ),
            ),
    )
}

/// Whether candidates survive pruning: they are the best of a list by what their
/// centroids say, each with the score that it had in the list.
pub open spec fn are_survivors<N, D, G, A>(
    index: MultiVectorIndex,
    kernels: Kernels<'_, N, D, G, A>,
    vectors: Seq<Seq<Score>>,
    list: Seq<(u64, Score)>,
    survivors: int,
    out: Seq<(u64, Score)>,
) -> bool where
    N: Fn(&[Score]) -> Vec<Score>,
    D: Fn(&[Score], &[Score]) -> Score,
    G: Fn(Score, Score) -> Score,
    A: Fn(Score, Score) -> Score,
 {
    exists|found: Seq<(u64, Score)>| #[trigger]
        are_best_of(centroid_items(index, kernels, vectors, list), survivors, found) && out.len() == found.len()
            && forall|i: int| 0 <= i < out.len() ==> (#[trigger] out[i]).0 == found[i].0 && list.contains(out[i])
}

/// Pruning keeps the best of the first candidates by what their centroids say.
pub proof fn law_pruning_keeps_the_best<N, D, G, A>(
    index: MultiVectorIndex,
    kernels: Kernels<'_, N, D, G, A>,
    vectors: Seq<Seq<Score>>,
    list: Seq<(u64, Score)>,
    candidates: usize,
    survivors: usize,
) where
    N: Fn(&[Score]) -> Vec<Score>,
    D: Fn(&[Score], &[Score]) -> Score,
    G: Fn(Score, Score) -> Score,
    A: Fn(Score, Score) -> Score,

    requires
        index.ok(),
        are_distinct_documents(index, list),
    ensures
        ({
            let out = answer::narrowed(
                index,
                *kernels.dot,
                *kernels.greater,
                *kernels.add,
                late::normalized_rows(*kernels.normalize, vectors),
                Ok::<Seq<(u64, Score)>, IndexError>(list),
                candidates,
                survivors,
            );
            let first = list.take(
                if candidates < list.len() {
                    candidates as int
                } else {
                    list.len() as int
                },
            );
            &&& out is Ok
            &&& are_survivors(index, kernels, vectors, first, survivors as int, out->Ok_0)
            &&& are_distinct_documents(index, out->Ok_0)
        }),
{
    let unit = late::normalized_rows(*kernels.normalize, vectors);
    assert(unit =~= units(*kernels.normalize, vectors));
    let first = list.take(rank::at_most(candidates as int, list.len()));
    let scores = answer::centroid_scores(index, *kernels.dot, *kernels.greater, *kernels.add, unit, first);
    let items = rank::rescored(first, scores);
    let goal = centroid_items(index, kernels, vectors, first);
    assert forall|i: int| 0 <= i < first.len() implies items[i] == goal[i] by {
        let d = first[i].0 as int;
        assert(list[i].0 < index.state.documents.values@.len());
        lemma_known_centroids(index, d);
        law_centroid_score_sums_the_greatest_products(
            *kernels.dot,
            *kernels.greater,
            *kernels.add,
            unit,
            index.state@.codebook,
            index.state.documents.values@[d].unique_centroids@,
        );
    }
    assert(items =~= goal);
    assert(order::ids_differ(first)) by {
        assert forall|i: int, j: int| 0 <= i < j < first.len() implies (#[trigger] first[i]).0 != (
        #[trigger] first[j]).0 by {
            assert(list[i].0 != list[j].0);
        }
    }
    assert(order::ids_differ(items)) by {
        assert forall|i: int, j: int| 0 <= i < j < items.len() implies (#[trigger] items[i]).0 != (
        #[trigger] items[j]).0 by {
            assert(first[i].0 != first[j].0);
        }
    }
    order::law_ranking(items);
    order::law_ranking_keeps_ids_apart(items);
    best::law_rankings_begin_with_the_best(items, survivors as int);
    let ranked = order::ranking(items);
    let found = ranked.take(rank::at_most(survivors as int, items.len()));
    let out = rank::pruned(first, scores, survivors as int);
    assert forall|i: int| 0 <= i < out.len() implies (#[trigger] out[i]).0 == found[i].0 && first.contains(out[i])
        && out[i].0 < index.state.documents.values@.len() by {
        assert(items.contains(found[i]));
        let k = choose|k: int| 0 <= k < items.len() && items[k] == found[i];
        lemma_first_score(first, k);
        assert(ranked[i] == found[i]);
        assert(first[k] == out[i]);
        assert(list[k].0 < index.state.documents.values@.len());
    }
    assert forall|i: int, j: int| 0 <= i < j < out.len() implies (#[trigger] out[i]).0 != (#[trigger] out[j]).0 by {
        assert(ranked[i].0 != ranked[j].0);
    }
    assert(are_best_of(centroid_items(index, kernels, vectors, first), survivors as int, found));
}

/// A query with pruning takes the first documents by their encodings, keeps the best of
/// them by their centroids, and answers with the best of those by their exact scores.
pub proof fn law_pruned_queries_find_the_best<N, D, G, A>(
    index: MultiVectorIndex,
    kernels: Kernels<'_, N, D, G, A>,
    encoder: FdeEncoder,
    vectors: Seq<Seq<Score>>,
    segments: Segments<'_>,
    top_k: usize,
    candidates: usize,
    survivors: usize,
    hits: Seq<Hit>,
) where
    N: Fn(&[Score]) -> Vec<Score>,
    D: Fn(&[Score], &[Score]) -> Score,
    G: Fn(Score, Score) -> Score,
    A: Fn(Score, Score) -> Score,

    requires
        index.ok(),
        answer::is_pruned_query(
            index,
            kernels,
            encoder,
            vectors,
            segments,
            top_k,
            candidates,
            survivors,
            Ok::<Seq<Hit>, IndexError>(hits),
        ),
    ensures
        exists|list: Seq<(u64, Score)>, kept: Seq<(u64, Score)>|
            {
                &&& nearest::are_candidates(
                    index,
                    *kernels.dot,
                    muvera::query_encoding(
                        *kernels.dot,
                        *kernels.add,
                        encoder,
                        units(*kernels.normalize, vectors),
                        encoder.repetitions@.len(),
                    ),
                    segments.fde@,
                    list,
                )
                &&& answer::is_exact_ranking(
                    index,
                    *kernels.dot,
                    muvera::query_encoding(
                        *kernels.dot,
                        *kernels.add,
                        encoder,
                        units(*kernels.normalize, vectors),
                        encoder.repetitions@.len(),
                    ),
                    segments.fde@,
                    Some(candidates),
                    Ok::<Seq<(u64, Score)>, IndexError>(list),
                )
                &&& #[trigger] are_survivors(index, kernels, vectors, list, survivors as int, kept)
                &&& are_best_hits(index, kernels, vectors, segments.objects@, kept, top_k as int, hits)
            },
{
    let unit = late::normalized_rows(*kernels.normalize, vectors);
    assert(unit =~= units(*kernels.normalize, vectors));
    let query = answer::encoded(*kernels.normalize, *kernels.dot, *kernels.add, encoder, vectors);
    let ranking = choose|ranking: Result<Seq<(u64, Score)>, IndexError>|
        #[trigger] answer::is_exact_ranking(index, *kernels.dot, query, segments.fde@, Some(candidates), ranking)
            && answer::is_answer(
            index,
            *kernels.dot,
            *kernels.greater,
            *kernels.add,
            unit,
            segments.objects@,
            answer::narrowed(
                index,
                *kernels.dot,
                *kernels.greater,
                *kernels.add,
                unit,
                ranking,
                candidates,
                survivors,
            ),
            top_k,
            survivors as int,
            Ok::<Seq<Hit>, IndexError>(hits),
        );
    assert(ranking is Ok);
    let list = ranking->Ok_0;
    nearest::law_exact_candidates(index, *kernels.dot, query, segments.fde@, Some(candidates), list);
    lemma_documents(index, list);
    law_pruning_keeps_the_best(index, kernels, vectors, list, candidates, survivors);
    assert(list.take(list.len() as int) =~= list);
    let kept = answer::narrowed(
        index,
        *kernels.dot,
        *kernels.greater,
        *kernels.add,
        unit,
        ranking,
        candidates,
        survivors,
    )->Ok_0;
    law_rescoring_finds_the_best(
        index,
        kernels,
        vectors,
        segments.objects@,
        kept,
        top_k,
        survivors as int,
        hits,
    );
    assert(kept.take(kept.len() as int) =~= kept);
    assert(are_survivors(index, kernels, vectors, list, survivors as int, kept));
}

pub(crate) proof fn lemma_documents(index: MultiVectorIndex, list: Seq<(u64, Score)>)
    requires
        index.ok(),
        answer::are_documents(index, list),
        order::ids_differ(list),
    ensures
        are_distinct_documents(index, list),
{
    assert(index.state.documents.ids().len() == index.state.documents.values@.len());
    assert forall|k: int| 0 <= k < list.len() implies (#[trigger] list[k]).0 < index.state.documents.values@.len() by {
        assert(list[k].0 < index.state.documents.ids().len());
    }
}

} // verus!
