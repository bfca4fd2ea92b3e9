//! What a query over all documents promises of its hits.

use vstd::prelude::*;
use crate::config;
use crate::config::IndexError;
use crate::engine::answer;
use crate::engine::answer::Segments;
use crate::engine::index::MultiVectorIndex;
use crate::engine::late;
use crate::engine::late::Kernels;
use crate::engine::rank;
use crate::engine::rank::Hit;
use crate::error::StorageError;
use crate::muvera::FdeEncoder;
use crate::order;
use crate::score;
use crate::score::Score;

verus! {

/// A query with as many candidates as there are documents misses none: a document
/// that is not among its hits scores no better than any of them.
pub proof fn law_full_budget_finds_the_best<
    N: Fn(&[Score]) -> Vec<Score>,
    D: Fn(&[Score], &[Score]) -> Score,
    G: Fn(Score, Score) -> Score,
    A: Fn(Score, Score) -> Score,
>(
    index: MultiVectorIndex,
    kernels: Kernels<'_, N, D, G, A>,
    encoder: FdeEncoder,
    vectors: Seq<Seq<Score>>,
    segments: Segments<'_>,
    top_k: usize,
    candidates: Option<usize>,
    hits: Seq<Hit>,
    document: int,
    hit: int,
)
    requires
        index.ok(),
        answer::is_query(
            index,
            kernels,
            encoder,
            vectors,
            segments,
            top_k,
            candidates,
            Ok::<Seq<Hit>, IndexError>(hits),
        ),
        index.state.documents.ids().len() <= config::candidate_budget(top_k, candidates) <= usize::MAX,
        0 <= document < index.state.documents.ids().len(),
        forall|h: int| 0 <= h < hits.len() ==> (#[trigger] hits[h]).id@ != index.state.documents.ids()[document],
        0 <= hit < hits.len(),
    ensures
        ({
            let exact = late::stored_score(
                index,
                *kernels.dot,
                *kernels.greater,
                *kernels.add,
                late::normalized_rows(*kernels.normalize, vectors),
                segments.objects@,
                index.state.documents.values@[document].location,
            );
            exact is Ok && score::total_key(hits[hit].score) >= score::total_key(exact->Ok_0)
        }),
        hits.len() == top_k,
{
    let unit = late::normalized_rows(*kernels.normalize, vectors);
    let budget = config::candidate_budget(top_k, candidates);
    let n = index.state.documents.ids().len();
    let places = answer::locations(index);
    assert(places.len() == n);
    let query = answer::encoded(*kernels.normalize, *kernels.dot, *kernels.add, encoder, vectors);
    let ranking = choose|ranking: Result<Seq<(u64, Score)>, IndexError>|
        #[trigger] answer::is_exact_ranking(
            index,
            *kernels.dot,
            query,
            segments.fde@,
            Some(budget as usize),
            ranking,
        ) && answer::is_answer(
            index,
            *kernels.dot,
            *kernels.greater,
            *kernels.add,
            unit,
            segments.objects@,
            ranking,
            top_k,
            budget,
            Ok::<Seq<Hit>, IndexError>(hits),
        );
    assert(ranking is Ok);
    let list = ranking->Ok_0;
    let found = choose|found: Result<Seq<Score>, StorageError>|
        #[trigger] answer::are_scores(
            *kernels.dot,
            query,
            segments.fde@,
            places,
            index.config.encoding_dimension(),
            found,
        ) && ranking == match found {
            Err(e) => Err::<Seq<(u64, Score)>, IndexError>(IndexError::Io(e)),
            Ok(scores) => Ok(
                order::ranking(rank::positioned(scores)).take(rank::at_most(budget as usize as int, scores.len())),
            ),
        };
    let scores = found->Ok_0;
    let items = rank::positioned(scores);
    order::law_ranking(items);
    assert(list =~= order::ranking(items));
    assert(index.state.documents.keys.len() == n);
    assert(items[document] == (document as u64, scores[document]));
    assert(items.contains(items[document]));
    assert(order::ranking(items).contains(items[document]));
    let at = choose|at: int| 0 <= at < list.len() && list[at] == items[document];
    let exact = answer::exact_scores(
        index,
        *kernels.dot,
        *kernels.greater,
        *kernels.add,
        unit,
        segments.objects@,
        list,
        budget,
    );
    assert(exact[at] is Ok);
    let values = Seq::new(exact.len(), |i: int| exact[i]->Ok_0);
    let second = rank::rescored(list, values);
    order::law_ranking(second);
    let best = order::ranking(second);
    assert(second.contains(second[at]));
    assert(best.contains(second[at]));
    let p = choose|p: int| 0 <= p < best.len() && best[p] == second[at];
    if p < hits.len() {
        assert(hits[p].id@ == index.state.documents.ids()[document]);
    }
    assert(order::ranks_before(best[hit], best[p]));
    assert(hits[hit].score == best[hit].1);
}

} // verus!
