//! What queries by encodings answer with: the best of the candidates that they score
//! exactly.

use vstd::prelude::*;
use crate::config;
use crate::config::IndexError;
use crate::engine::answer;
use crate::engine::answer::Segments;
use crate::engine::index::MultiVectorIndex;
use crate::engine::late;
use crate::engine::late::Kernels;
use crate::engine::nearest;
use crate::engine::rank::Hit;
use crate::laws::kmeans::units;
use crate::laws::probe;
use crate::muvera;
use crate::muvera::FdeEncoder;
use crate::score::Score;

verus! {

/// How many candidates a query scores exactly: as many as it asks for, or eight for each
/// result, and never fewer than the results.
pub open spec fn depth(top_k: usize, candidates: Option<usize>) -> usize {
    let asked = if candidates is Some {
        candidates->0 as int
    } else {
        8 * top_k
    };
    if asked <= top_k {
        top_k
    } else if asked <= usize::MAX {
        asked as usize
    } else {
        usize::MAX
    }
}

/// The encoding of a query's normalized vectors.
pub open spec fn encoding_of<N, D, G, A>(
    kernels: Kernels<'_, N, D, G, A>,
    encoder: FdeEncoder,
    vectors: Seq<Seq<Score>>,
) -> Seq<Score> where
    N: Fn(&[Score]) -> Vec<Score>,
    D: Fn(&[Score], &[Score]) -> Score,
    G: Fn(Score, Score) -> Score,
    A: Fn(Score, Score) -> Score,
 {
    muvera::query_encoding(
        *kernels.dot,
        *kernels.add,
        encoder,
        units(*kernels.normalize, vectors),
        encoder.repetitions@.len(),
    )
}

/// A query answers with the best by their exact scores of the first documents by their
/// encodings.
pub proof fn law_exact_queries_find_the_best<N, D, G, A>(
    index: MultiVectorIndex,
    kernels: Kernels<'_, N, D, G, A>,
    encoder: FdeEncoder,
    vectors: Seq<Seq<Score>>,
    segments: Segments<'_>,
    top_k: usize,
    candidates: Option<usize>,
    hits: Seq<Hit>,
) where
    N: Fn(&[Score]) -> Vec<Score>,
    D: Fn(&[Score], &[Score]) -> Score,
    G: Fn(Score, Score) -> Score,
    A: Fn(Score, Score) -> Score,

    requires
        index.ok(),
        answer::is_query(
            index,
            kernels,
            encoder,
            vectors,
            segments,
            top_k,
            candidates,
            Ok::<Seq<Hit>, IndexError>(hits),
        ),
    ensures
        exists|list: Seq<(u64, Score)>| #[trigger]
            answer::is_exact_ranking(
                index,
                *kernels.dot,
                encoding_of(kernels, encoder, vectors),
                segments.fde@,
                Some(depth(top_k, candidates)),
                Ok::<Seq<(u64, Score)>, IndexError>(list),
            ) && probe::are_best_hits(index, kernels, vectors, segments.objects@, list, top_k as int, hits),
{
    let unit = late::normalized_rows(*kernels.normalize, vectors);
    assert(unit =~= units(*kernels.normalize, vectors));
    let query = encoding_of(kernels, encoder, vectors);
    let budget = config::candidate_budget(top_k, candidates);
    assert(budget == depth(top_k, candidates));
    let ranking = choose|ranking: Result<Seq<(u64, Score)>, IndexError>| #[trigger]
        answer::is_exact_ranking(index, *kernels.dot, query, segments.fde@, Some(budget as usize), ranking)
            && answer::is_answer(
            index,
            *kernels.dot,
            *kernels.greater,
            *kernels.add,
            unit,
            segments.objects@,
            ranking,
            top_k,
            budget,
            Ok::<Seq<Hit>, IndexError>(hits),
        );
    assert(ranking is Ok);
    let list = ranking->Ok_0;
    nearest::law_exact_candidates(index, *kernels.dot, query, segments.fde@, Some(budget as usize), list);
    probe::lemma_documents(index, list);
    probe::law_rescoring_finds_the_best(
        index,
        kernels,
        vectors,
        segments.objects@,
        list,
        top_k,
        budget,
        hits,
    );
    assert(list.take(list.len() as int) =~= list);
}

/// A query over the graph answers with the best by their exact scores of the documents
/// that a ranking over it gives.
pub proof fn law_graph_queries_find_the_best<N, D, G, A>(
    index: MultiVectorIndex,
    kernels: Kernels<'_, N, D, G, A>,
    encoder: FdeEncoder,
    vectors: Seq<Seq<Score>>,
    segments: Segments<'_>,
    top_k: usize,
    candidates: Option<usize>,
    ef_search: usize,
    hits: Seq<Hit>,
) where
    N: Fn(&[Score]) -> Vec<Score>,
    D: Fn(&[Score], &[Score]) -> Score,
    G: Fn(Score, Score) -> Score,
    A: Fn(Score, Score) -> Score,

    requires
        index.ok(),
        index.encodes_with(encoder),
        index.state@.fde_ann is Some,
        nearest::is_current(index.config, index.state@, segments.fde@),
        answer::is_ann_query(
            index,
            kernels,
            encoder,
            vectors,
            segments,
            top_k,
            candidates,
            ef_search,
            Ok::<Seq<Hit>, IndexError>(hits),
        ),
    ensures
        exists|list: Seq<(u64, Score)>| #[trigger]
            answer::is_ann_ranking(
                index,
                *kernels.dot,
                encoding_of(kernels, encoder, vectors),
                segments.fde@,
                depth(top_k, candidates),
                ef_search,
                Ok::<Seq<(u64, Score)>, IndexError>(list),
            ) && probe::are_best_hits(index, kernels, vectors, segments.objects@, list, top_k as int, hits),
{
    let unit = late::normalized_rows(*kernels.normalize, vectors);
    assert(unit =~= units(*kernels.normalize, vectors));
    let query = encoding_of(kernels, encoder, vectors);
    let budget = config::candidate_budget(top_k, candidates);
    assert(budget == depth(top_k, candidates));
    let ranking = choose|ranking: Result<Seq<(u64, Score)>, IndexError>| #[trigger]
        answer::is_ann_ranking(index, *kernels.dot, query, segments.fde@, budget as usize, ef_search, ranking)
            && answer::is_answer(
            index,
            *kernels.dot,
            *kernels.greater,
            *kernels.add,
            unit,
            segments.objects@,
            ranking,
            top_k,
            budget,
            Ok::<Seq<Hit>, IndexError>(hits),
        );
    assert(ranking is Ok);
    let list = ranking->Ok_0;
    muvera::law_query_encoding_has_the_output_dimension(
        *kernels.dot,
        *kernels.add,
        encoder,
        unit,
        encoder.repetitions@.len(),
    );
    nearest::law_graph_candidates(
        index,
        *kernels.dot,
        query,
        segments.fde@,
        budget as usize,
        ef_search,
        ranking,
    );
    probe::lemma_documents(index, list);
    probe::law_rescoring_finds_the_best(
        index,
        kernels,
        vectors,
        segments.objects@,
        list,
        top_k,
        budget,
        hits,
    );
    assert(list.take(list.len() as int) =~= list);
}

/// A query over the graph with pruning takes the documents that a ranking over it gives,
/// keeps the best of them by their centroids, and answers with the best of those by their
/// exact scores.
pub proof fn law_pruned_graph_queries_find_the_best<N, D, G, A>(
    index: MultiVectorIndex,
    kernels: Kernels<'_, N, D, G, A>,
    encoder: FdeEncoder,
    vectors: Seq<Seq<Score>>,
    segments: Segments<'_>,
    top_k: usize,
    candidates: usize,
    survivors: usize,
    ef_search: usize,
    hits: Seq<Hit>,
) where
    N: Fn(&[Score]) -> Vec<Score>,
    D: Fn(&[Score], &[Score]) -> Score,
    G: Fn(Score, Score) -> Score,
    A: Fn(Score, Score) -> Score,

    requires
        index.ok(),
        index.encodes_with(encoder),
        index.state@.fde_ann is Some,
        nearest::is_current(index.config, index.state@, segments.fde@),
        answer::is_pruned_ann_query(
            index,
            kernels,
            encoder,
            vectors,
            segments,
            top_k,
            candidates,
            survivors,
            ef_search,
            Ok::<Seq<Hit>, IndexError>(hits),
        ),
    ensures
        exists|list: Seq<(u64, Score)>, kept: Seq<(u64, Score)>|
            {
                &&& answer::is_ann_ranking(
                    index,
                    *kernels.dot,
                    encoding_of(kernels, encoder, vectors),
                    segments.fde@,
                    candidates,
                    ef_search,
                    Ok::<Seq<(u64, Score)>, IndexError>(list),
                )
                &&& #[trigger] probe::are_survivors(index, kernels, vectors, list, survivors as int, kept)
                &&& probe::are_best_hits(index, kernels, vectors, segments.objects@, kept, top_k as int, hits)
            },
{
    let unit = late::normalized_rows(*kernels.normalize, vectors);
    assert(unit =~= units(*kernels.normalize, vectors));
    let query = encoding_of(kernels, encoder, vectors);
    let ranking = choose|ranking: Result<Seq<(u64, Score)>, IndexError>| #[trigger]
        answer::is_ann_ranking(index, *kernels.dot, query, segments.fde@, candidates, ef_search, ranking)
            && answer::is_answer(
            index,
            *kernels.dot,
            *kernels.greater,
            *kernels.add,
            unit,
            segments.objects@,
            answer::narrowed(
                index,
                *kernels.dot,
                *kernels.greater,
                *kernels.add,
                unit,
                ranking,
                candidates,
                survivors,
            ),
            top_k,
            survivors as int,
            Ok::<Seq<Hit>, IndexError>(hits),
        );
    assert(ranking is Ok);
    let list = ranking->Ok_0;
    muvera::law_query_encoding_has_the_output_dimension(
        *kernels.dot,
        *kernels.add,
        encoder,
        unit,
        encoder.repetitions@.len(),
    );
    nearest::law_graph_candidates(index, *kernels.dot, query, segments.fde@, candidates, ef_search, ranking);
    probe::lemma_documents(index, list);
    probe::law_pruning_keeps_the_best(index, kernels, vectors, list, candidates, survivors);
    assert(list.take(list.len() as int) =~= list);
    let kept = answer::narrowed(
        index,
        *kernels.dot,
        *kernels.greater,
        *kernels.add,
        unit,
        ranking,
        candidates,
        survivors,
    )->Ok_0;
    probe::law_rescoring_finds_the_best(
        index,
        kernels,
        vectors,
        segments.objects@,
        kept,
        top_k,
        survivors as int,
        hits,
    );
    assert(kept.take(kept.len() as int) =~= kept);
    assert(probe::are_survivors(index, kernels, vectors, list, survivors as int, kept));
}

} // verus!
