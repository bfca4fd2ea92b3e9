//! What requests ask for, and how far answers agree with the scores that led to them.

use vstd::prelude::*;
use crate::config::IndexError;
use crate::engine::answer;
use crate::engine::answer::Segments;
use crate::engine::index::MultiVectorIndex;
use crate::engine::late::Kernels;
use crate::engine::rank::Hit;
use crate::laws::best;
use crate::laws::encode::numbers;
use crate::laws::sums::beats;
use crate::muvera::FdeEncoder;
use crate::order;
use crate::score;
use crate::score::Score;
use crate::serve;
use crate::serve::{PlanError, QueryKnobs, QueryPlan};

verus! {

/// Scores with their positions.
pub open spec fn positions(scores: Seq<Score>) -> Seq<(u64, Score)> {
    Seq::new(scores.len(), |i: int| (i as u64, scores[i]))
}

/// How many scores are greater than one, or the same and before it.
pub open spec fn better(scores: Seq<Score>, at: int) -> nat {
    positions(scores).filter(|other: (u64, Score)| beats(other, (at as u64, scores[at]))).len()
}

/// The place of a hit by its score is the number of hits with better ones.
pub proof fn law_place_is_the_number_of_better_hits(scores: Seq<Score>, at: int)
    requires
        0 <= at < scores.len() <= u64::MAX,
    ensures
        serve::place(scores, at) == better(scores, at),
{
    let items = positions(scores);
    let keys = serve::descending_keys(scores);
    assert(items.map_values(|item: (u64, Score)| order::rank_pair(item)) =~= order::keyed_positions(keys));
    assert(order::ids_differ(items));
    let ranked = order::ranking(items);
    order::law_ranking(items);
    order::law_ranking_keeps_ids_apart(items);
    let sorted = order::sorted_pairs(order::keyed_positions(keys));
    assert forall|i: int| 0 <= i < scores.len() implies order::stable_order(keys)[i] == (#[trigger] ranked[i]).0 by {
        assert(ranked[i] == order::ranked_item(sorted[i]));
    }
    order::law_sorted_pairs(order::keyed_positions(keys));
    assert(items.contains(items[at]));
    assert(ranked.contains(items[at]));
    let k = choose|k: int| 0 <= k < ranked.len() && ranked[k] == items[at];
    assert(ranked[k].0 == at);
    assert(order::stable_order(keys)[k] == at);
    let found = serve::place(scores, at);
    assert(0 <= found < scores.len() && order::stable_order(keys)[found] == at);
    assert(ranked[found].0 == at);
    assert(found == k);
    best::law_rank_is_the_number_of_better_items(items, k);
    assert(ranked[k] == (at as u64, scores[at]));
}

/// The hits that count as close are those at most three places from the number of hits
/// with better scores.
pub proof fn law_close_hits_are_counted(scores: Seq<Score>, n: nat)
    requires
        n <= scores.len() <= u64::MAX,
    ensures
        serve::close_hits(scores, n) == numbers(n).filter(|at: int| -3 <= better(scores, at) - at <= 3).len(),
    decreases n,
{
    reveal(Seq::filter);
    let p = |at: int| -3 <= better(scores, at) - at <= 3;
    if n > 0 {
        law_close_hits_are_counted(scores, (n - 1) as nat);
        assert(numbers(n).drop_last() =~= numbers((n - 1) as nat));
        law_place_is_the_number_of_better_hits(scores, n - 1);
        assert(numbers(n).last() == n - 1);
    } else {
        assert(numbers(0).filter(p) =~= Seq::<int>::empty());
    }
}

/// A request for the graph is planned with its candidates and its list size, pruned
/// where it says how many survive.
pub proof fn law_graph_requests(knobs: QueryKnobs)
    requires
        knobs.candidate_backend matches Some(name) && name@ == "hnsw"@,
    ensures
        ({
            let ef_search = match knobs.ef_search {
                Some(n) => n,
                None => 256usize,
            };
            knobs.plan() == match knobs.rerank_candidates {
                Some(rerank_candidates) => Ok::<QueryPlan, PlanError>(
                    QueryPlan::AnnPruned {
                        candidates: match knobs.candidates {
                            Some(n) => n,
                            None => rerank_candidates,
                        },
                        rerank_candidates,
                        ef_search,
                    },
                ),
                None => Ok(QueryPlan::Ann { candidates: knobs.candidates, ef_search }),
            }
        }),
{
}

/// A request for the comparison with all encodings, or one that names no backend but
/// probes or prunes, probes or prunes as it says, and does not do both.
pub proof fn law_exact_requests(knobs: QueryKnobs)
    requires
        match knobs.candidate_backend {
            Some(name) => name@ == "muvera"@,
            None => knobs.probes is Some || knobs.rerank_candidates is Some,
        },
    ensures
        knobs.plan() == match (knobs.probes, knobs.rerank_candidates) {
            (Some(probes), None) => Ok::<QueryPlan, PlanError>(
                QueryPlan::Probes { candidates: knobs.candidates, probes },
            ),
            (None, Some(rerank_candidates)) => Ok(
                QueryPlan::Pruned {
                    candidates: match knobs.candidates {
                        Some(n) => n,
                        None => rerank_candidates,
                    },
                    rerank_candidates,
                },
            ),
            (None, None) => Ok(QueryPlan::Exact { candidates: knobs.candidates }),
            (Some(_), Some(_)) => Err(PlanError::RerankWithProbes),
        },
{
    lemma_names();
}

proof fn lemma_names()
    ensures
        "muvera"@ != "hnsw"@,
        "muvera"@ != "auto"@,
        "hnsw"@ != "auto"@,
{
    reveal_strlit("muvera");
    reveal_strlit("hnsw");
    reveal_strlit("auto");
    assert("muvera"@.len() == 6);
    assert("hnsw"@[0] == 'h');
    assert("auto"@[0] == 'a');
}

/// A request for any backend, or one that says nothing of it, takes its candidates and
/// its list size along, and may neither probe nor prune.
pub proof fn law_automatic_requests(knobs: QueryKnobs)
    requires
        match knobs.candidate_backend {
            Some(name) => name@ == "auto"@,
            None => knobs.probes is None && knobs.rerank_candidates is None,
        },
    ensures
        knobs.plan() == if knobs.probes is Some || knobs.rerank_candidates is Some {
            Err::<QueryPlan, PlanError>(PlanError::AutoWithKnobs)
        } else {
            Ok(
                QueryPlan::Auto {
                    candidates: knobs.candidates,
                    ef_search: match knobs.ef_search {
                        Some(n) => n,
                        None => 256usize,
                    },
                },
            )
        },
{
    lemma_names();
}

/// A request for a backend that there is not is refused.
pub proof fn law_other_requests_are_refused(knobs: QueryKnobs)
    requires
        knobs.candidate_backend matches Some(name) && name@ != "hnsw"@ && name@ != "muvera"@ && name@ != "auto"@,
    ensures
        knobs.plan() == Err::<QueryPlan, PlanError>(PlanError::UnknownBackend),
{
}

/// A request is answered by the search that it names, with the numbers that it asks for.
pub proof fn law_requests_are_answered_as_asked<N, D, G, A>(
    knobs: QueryKnobs,
    index: MultiVectorIndex,
    kernels: Kernels<'_, N, D, G, A>,
    encoder: FdeEncoder,
    vectors: Seq<Seq<Score>>,
    segments: Segments<'_>,
    top_k: usize,
    r: Result<Seq<Hit>, IndexError>,
) where
    N: Fn(&[Score]) -> Vec<Score>,
    D: Fn(&[Score], &[Score]) -> Score,
    G: Fn(Score, Score) -> Score,
    A: Fn(Score, Score) -> Score,

    requires
        knobs.plan() is Ok,
        serve::follows(knobs.plan()->Ok_0, index, kernels, encoder, vectors, segments, top_k, r),
    ensures
        ({
            let ef = if knobs.ef_search is Some {
                knobs.ef_search->0
            } else {
                256
            };
            let survivors = knobs.rerank_candidates->0;
            let broad = if knobs.candidates is Some {
                knobs.candidates->0
            } else {
                survivors
            };
            let named = |name: Seq<char>| knobs.candidate_backend is Some && knobs.candidate_backend->0@ == name;
            let pruned = knobs.rerank_candidates is Some;
            let probed = knobs.probes is Some;
            &&& named("hnsw"@) && !pruned ==> answer::is_ann_query(
                index,
                kernels,
                encoder,
                vectors,
                segments,
                top_k,
                knobs.candidates,
                ef,
                r,
            )
            &&& named("hnsw"@) && pruned ==> answer::is_pruned_ann_query(
                index,
                kernels,
                encoder,
                vectors,
                segments,
                top_k,
                broad,
                survivors,
                ef,
                r,
            )
            &&& named("muvera"@) && !pruned && !probed ==> answer::is_query(
                index,
                kernels,
                encoder,
                vectors,
                segments,
                top_k,
                knobs.candidates,
                r,
            )
            &&& (named("muvera"@) || knobs.candidate_backend is None) && pruned ==> answer::is_pruned_query(
                index,
                kernels,
                encoder,
                vectors,
                segments,
                top_k,
                broad,
                survivors,
                r,
            )
            &&& (named("muvera"@) || knobs.candidate_backend is None) && probed ==> answer::is_probed_query(
                index,
                kernels,
                vectors,
                segments.objects@,
                top_k,
                knobs.candidates,
                knobs.probes->0,
                r,
            )
            &&& (named("auto"@) || knobs.candidate_backend is None && !pruned && !probed) ==> answer::is_auto_query(
                index,
                kernels,
                encoder,
                vectors,
                segments,
                top_k,
                knobs.candidates,
                ef,
                r,
            )
        }),
{
    lemma_names();
}

/// A query without a named backend goes over the graph where there is one of the current
/// generation, and else compares with all encodings.
pub proof fn law_automatic_queries_use_a_current_graph<N, D, G, A>(
    index: MultiVectorIndex,
    kernels: Kernels<'_, N, D, G, A>,
    encoder: FdeEncoder,
    vectors: Seq<Seq<Score>>,
    segments: Segments<'_>,
    top_k: usize,
    candidates: Option<usize>,
    ef_search: usize,
    r: Result<Seq<Hit>, IndexError>,
) where
    N: Fn(&[Score]) -> Vec<Score>,
    D: Fn(&[Score], &[Score]) -> Score,
    G: Fn(Score, Score) -> Score,
    A: Fn(Score, Score) -> Score,

    requires
        answer::is_auto_query(index, kernels, encoder, vectors, segments, top_k, candidates, ef_search, r),
        index.takes(vectors),
        top_k > 0,
        ef_search > 0,
    ensures
        ({
            let current = index.state@.fde_ann is Some && index.state@.fde_ann->0.generation == index.state@.generation;
            &&& current ==> answer::is_ann_query(
                index,
                kernels,
                encoder,
                vectors,
                segments,
                top_k,
                candidates,
                ef_search,
                r,
            )
            &&& !current ==> answer::is_query(index, kernels, encoder, vectors, segments, top_k, candidates, r)
        }),
{
}

} // verus!
