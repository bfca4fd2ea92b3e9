//! What makes ranked results useful: fusion of several lists, diversity, and
//! groups.

use vstd::prelude::*;
use crate::arith;
use crate::order;
use crate::score;
use crate::score::Score;
use crate::tally;
use crate::tally::Tally;

verus! {

/// What the first `upto` results of a list contribute by their ranks.
pub open spec fn rank_parts<C: Fn(Score, usize) -> Score>(
    contribution: C,
    k: Score,
    results: Seq<(u64, Score)>,
) -> Seq<(u64, Score)> {
    Seq::new(results.len(), |rank: int| (results[rank].0, arith::scaled(contribution, k, rank as usize)))
}

/// What the lists contribute by their ranks, one after the other.
pub open spec fn all_rank_parts<C: Fn(Score, usize) -> Score>(
    contribution: C,
    k: Score,
    sets: Seq<Seq<(u64, Score)>>,
) -> Seq<(u64, Score)>
    decreases sets.len(),
{
    if sets.len() == 0 {
        Seq::empty()
    } else {
        all_rank_parts(contribution, k, sets.drop_last()) + rank_parts(contribution, k, sets.last())
    }
}

/// The lists of results.
pub open spec fn lists_of(sets: Seq<Vec<(u64, Score)>>) -> Seq<Seq<(u64, Score)>> {
    sets.map_values(|set: Vec<(u64, Score)>| set@)
}

proof fn lemma_tally_step<A: Fn(Score, Score) -> Score>(add: A, parts: Seq<(u64, Score)>, part: (u64, Score))
    ensures
        tally::tallied(add, parts.push(part)) == tally::counted(add, tally::tallied(add, parts), part),
{
    assert(parts.push(part).drop_last() =~= parts);
}

/// Fuses ranked lists: a document's score is the sum of what its ranks
/// contribute, `contribution(k, rank)` for each list that holds it, with ranks
/// from zero. Best first, the smaller id first among equals, up to `top_k`.
pub fn reciprocal_rank_fusion<C: Fn(Score, usize) -> Score, A: Fn(Score, Score) -> Score>(
    result_sets: &[Vec<(u64, Score)>],
    top_k: usize,
    k: Score,
    contribution: &C,
    add: &A,
) -> (r: Vec<(u64, Score)>)
    requires
        arith::is_scaling(*contribution),
        arith::is_binary(*add),
    ensures
        r@ == tally::top_tallied(
            *add,
            all_rank_parts(*contribution, k, lists_of(result_sets@)),
            top_k as int,
        ),
{
    let ghost sets = lists_of(result_sets@);
    let mut fused: Tally = Tally::new();
    let mut s: usize = 0;
    while s < result_sets.len()
        invariant
            s <= result_sets@.len(),
            sets == lists_of(result_sets@),
            arith::is_scaling(*contribution),
            arith::is_binary(*add),
            fused.wf(),
            fused.items@ == tally::tallied(*add, all_rank_parts(*contribution, k, sets.take(s as int))),
        decreases result_sets@.len() - s,
    {
        let results: &Vec<(u64, Score)> = &result_sets[s];
        let ghost before = all_rank_parts(*contribution, k, sets.take(s as int));
        let ghost parts = rank_parts(*contribution, k, results@);
        assert(sets.take(s + 1).drop_last() =~= sets.take(s as int));
        assert(sets.take(s + 1).last() == results@);
        assert(before + parts.take(0) =~= before);
        let mut rank: usize = 0;
        while rank < results.len()
            invariant
                rank <= results@.len(),
                arith::is_scaling(*contribution),
                arith::is_binary(*add),
                parts == rank_parts(*contribution, k, results@),
                fused.wf(),
                fused.items@ == tally::tallied(*add, before + parts.take(rank as int)),
            decreases results@.len() - rank,
        {
            let part: Score = arith::apply_scaling(contribution, k, rank);
            proof {
                lemma_tally_step(*add, before + parts.take(rank as int), parts[rank as int]);
                assert((before + parts.take(rank as int)).push(parts[rank as int]) =~= before + parts.take(rank + 1));
            }
            fused.count(add, results[rank].0, part);
            rank += 1;
        }
        assert(parts.take(rank as int) =~= parts);
        s += 1;
    }
    assert(sets.take(s as int) =~= sets);
    proof {
        order::law_ranking(fused.items@);
    }
    order::rank(fused.items.as_slice(), top_k)
}

/// What a list contributes with a weight.
pub open spec fn weighted_parts<M: Fn(Score, Score) -> Score>(
    multiply: M,
    weight: Score,
    results: Seq<(u64, Score)>,
) -> Seq<(u64, Score)> {
    Seq::new(results.len(), |i: int| (results[i].0, arith::binary(multiply, weight, results[i].1)))
}

/// What weighted lists contribute, one after the other.
pub open spec fn all_weighted_parts<M: Fn(Score, Score) -> Score>(
    multiply: M,
    sets: Seq<(Seq<(u64, Score)>, Score)>,
) -> Seq<(u64, Score)>
    decreases sets.len(),
{
    if sets.len() == 0 {
        Seq::empty()
    } else {
        all_weighted_parts(multiply, sets.drop_last()) + weighted_parts(multiply, sets.last().1, sets.last().0)
    }
}

/// The weighted lists of results.
pub open spec fn weighted_lists_of(sets: Seq<(Vec<(u64, Score)>, Score)>) -> Seq<(Seq<(u64, Score)>, Score)> {
    sets.map_values(|set: (Vec<(u64, Score)>, Score)| (set.0@, set.1))
}

/// Fuses lists whose scores share a scale: a document's score is the sum of its
/// scores, each times the weight of its list. Best first, the smaller id first
/// among equals, up to `top_k`.
pub fn weighted_fusion<M: Fn(Score, Score) -> Score, A: Fn(Score, Score) -> Score>(
    result_sets: &[(Vec<(u64, Score)>, Score)],
    top_k: usize,
    multiply: &M,
    add: &A,
) -> (r: Vec<(u64, Score)>)
    requires
        arith::is_binary(*multiply),
        arith::is_binary(*add),
    ensures
        r@ == tally::top_tallied(
            *add,
            all_weighted_parts(*multiply, weighted_lists_of(result_sets@)),
            top_k as int,
        ),
{
    let ghost sets = weighted_lists_of(result_sets@);
    let mut fused: Tally = Tally::new();
    let mut s: usize = 0;
    while s < result_sets.len()
        invariant
            s <= result_sets@.len(),
            sets == weighted_lists_of(result_sets@),
            arith::is_binary(*multiply),
            arith::is_binary(*add),
            fused.wf(),
            fused.items@ == tally::tallied(*add, all_weighted_parts(*multiply, sets.take(s as int))),
        decreases result_sets@.len() - s,
    {
        let results: &Vec<(u64, Score)> = &result_sets[s].0;
        let weight: Score = result_sets[s].1;
        let ghost before = all_weighted_parts(*multiply, sets.take(s as int));
        let ghost parts = weighted_parts(*multiply, weight, results@);
        assert(sets.take(s + 1).drop_last() =~= sets.take(s as int));
        assert(sets.take(s + 1).last() == (results@, weight));
        assert(before + parts.take(0) =~= before);
        let mut i: usize = 0;
        while i < results.len()
            invariant
                i <= results@.len(),
                arith::is_binary(*multiply),
                arith::is_binary(*add),
                parts == weighted_parts(*multiply, weight, results@),
                fused.wf(),
                fused.items@ == tally::tallied(*add, before + parts.take(i as int)),
            decreases results@.len() - i,
        {
            let part: Score = arith::apply_binary(multiply, weight, results[i].1);
            proof {
                lemma_tally_step(*add, before + parts.take(i as int), parts[i as int]);
                assert((before + parts.take(i as int)).push(parts[i as int]) =~= before + parts.take(i + 1));
            }
            fused.count(add, results[i].0, part);
            i += 1;
        }
        assert(parts.take(i as int) =~= parts);
        s += 1;
    }
    assert(sets.take(s as int) =~= sets);
    proof {
        order::law_ranking(fused.items@);
    }
    order::rank(fused.items.as_slice(), top_k)
}

/// Whether `f` compares any two candidates, the same way each time.
pub open spec fn is_similarity<T, F: Fn(&T, &T) -> Score>(f: F) -> bool {
    &&& forall|a: &T, b: &T| #[trigger] f.requires((a, b))
    &&& forall|a: &T, b: &T, r: Score, s: Score|
        #[trigger] f.ensures((a, b), r) && #[trigger] f.ensures((a, b), s) ==> r == s
}

/// How similar two candidates are.
pub open spec fn similarity_of<T, F: Fn(&T, &T) -> Score>(f: F, a: T, b: T) -> Score {
    choose|r: Score| f.ensures((&a, &b), r)
}

/// How similar a candidate is to the most similar of the selected ones, by a
/// function that picks the greater of two numbers, from negative infinity.
pub open spec fn closest_similarity<T, F: Fn(&T, &T) -> Score, G: Fn(Score, Score) -> Score>(
    similarity: F,
    greater: G,
    candidates: Seq<T>,
    at: int,
    selected: Seq<usize>,
) -> Score
    decreases selected.len(),
{
    if selected.len() == 0 {
        score::negated(score::INFINITY)
    } else {
        arith::binary(
            greater,
            closest_similarity(similarity, greater, candidates, at, selected.drop_last()),
            similarity_of(similarity, candidates[at], candidates[selected.last() as int]),
        )
    }
}

/// What a candidate is worth next: its score blended with how similar it is to
/// the selected ones; a similarity that is not finite counts as zero.
pub open spec fn marginal<
    T,
    F: Fn(&T, &T) -> Score,
    G: Fn(Score, Score) -> Score,
    B: Fn(Score, Score) -> Score,
>(
    similarity: F,
    greater: G,
    blend: B,
    candidates: Seq<T>,
    scores: Seq<Score>,
    at: int,
    selected: Seq<usize>,
) -> Score {
    let closest = closest_similarity(similarity, greater, candidates, at, selected);
    arith::binary(
        blend,
        scores[at],
        if score::finite(closest) {
            closest
        } else {
            0
        },
    )
}

/// The last of the first `upto` positions with the greatest value.
pub open spec fn last_greatest(values: Seq<Score>, upto: nat) -> int
    decreases upto,
{
    if upto <= 1 {
        0
    } else {
        let before = last_greatest(values, (upto - 1) as nat);
        if score::total_key(values[upto - 1]) >= score::total_key(values[before]) {
            upto - 1
        } else {
            before
        }
    }
}

/// The candidates that are left, and those that were selected, in their order.
pub struct Picks {
    pub selected: Seq<usize>,
    pub remaining: Seq<usize>,
}

/// The picks with the best of the remaining candidates selected next; the first
/// is selected by its score alone.
pub open spec fn picked<T, F: Fn(&T, &T) -> Score, G: Fn(Score, Score) -> Score, B: Fn(Score, Score) -> Score>(
    similarity: F,
    greater: G,
    blend: B,
    candidates: Seq<T>,
    scores: Seq<Score>,
    picks: Picks,
) -> Picks {
    let values = worth(similarity, greater, blend, candidates, scores, picks);
    let at = last_greatest(values, values.len());
    Picks { selected: picks.selected.push(picks.remaining[at]), remaining: picks.remaining.remove(at) }
}

/// What the remaining candidates are worth.
pub open spec fn worth<T, F: Fn(&T, &T) -> Score, G: Fn(Score, Score) -> Score, B: Fn(Score, Score) -> Score>(
    similarity: F,
    greater: G,
    blend: B,
    candidates: Seq<T>,
    scores: Seq<Score>,
    picks: Picks,
) -> Seq<Score> {
    Seq::new(
        picks.remaining.len(),
        |i: int|
            if picks.selected.len() == 0 {
                scores[picks.remaining[i] as int]
            } else {
                marginal(
                    similarity,
                    greater,
                    blend,
                    candidates,
                    scores,
                    picks.remaining[i] as int,
                    picks.selected,
                )
            },
    )
}

/// The picks after `count` candidates were selected.
pub open spec fn picks_after<T, F: Fn(&T, &T) -> Score, G: Fn(Score, Score) -> Score, B: Fn(Score, Score) -> Score>(
    similarity: F,
    greater: G,
    blend: B,
    candidates: Seq<T>,
    scores: Seq<Score>,
    count: nat,
) -> Picks
    decreases count,
{
    if count == 0 {
        Picks { selected: Seq::empty(), remaining: Seq::new(candidates.len(), |i: int| i as usize) }
    } else {
        picked(
            similarity,
            greater,
            blend,
            candidates,
            scores,
            picks_after(similarity, greater, blend, candidates, scores, (count - 1) as nat),
        )
    }
}

/// The position found has a greatest value, and greater than all behind it.
pub proof fn law_last_greatest(values: Seq<Score>, upto: nat)
    requires
        0 < upto <= values.len(),
    ensures
        0 <= last_greatest(values, upto) < upto,
        forall|i: int|
            0 <= i < upto ==> score::total_key(#[trigger] values[i]) <= score::total_key(
                values[last_greatest(values, upto)],
            ),
        forall|i: int|
            last_greatest(values, upto) < i < upto ==> score::total_key(#[trigger] values[i]) < score::total_key(
                values[last_greatest(values, upto)],
            ),
    decreases upto,
{
    if upto > 1 {
        law_last_greatest(values, (upto - 1) as nat);
    }
}

/// The position of the last greatest value.
fn find_last_greatest(values: &Vec<Score>) -> (r: usize)
    requires
        values@.len() > 0,
    ensures
        r == last_greatest(values@, values@.len()),
        r < values@.len(),
{
    let mut best: usize = 0;
    let mut i: usize = 1;
    while i < values.len()
        invariant
            1 <= i <= values@.len(),
            best < i,
            best == last_greatest(values@, i as nat),
        decreases values@.len() - i,
    {
        if score::total_rank(values[i]) >= score::total_rank(values[best]) {
            best = i;
        }
        i += 1;
    }
    best
}

/// Selects candidates one by one for relevance and diversity: the first by its
/// score, each next one by its score blended with how similar it is to those
/// selected before. Of candidates of equal worth the last is selected. Returns
/// their positions, up to `top_k`.
pub fn mmr_select<T, F: Fn(&T, &T) -> Score, G: Fn(Score, Score) -> Score, B: Fn(Score, Score) -> Score>(
    candidates: &[T],
    scores: &[Score],
    top_k: usize,
    similarity: &F,
    greater: &G,
    blend: &B,
) -> (r: Vec<usize>)
    requires
        candidates@.len() == scores@.len(),
        is_similarity::<T, F>(*similarity),
        arith::is_binary(*greater),
        arith::is_binary(*blend),
    ensures
        r@ == picks_after(
            *similarity,
            *greater,
            *blend,
            candidates@,
            scores@,
            if top_k < candidates@.len() {
                top_k as nat
            } else {
                candidates@.len()
            },
        ).selected,
{
    let n: usize = candidates.len();
    let count: usize = if top_k < n {
        top_k
    } else {
        n
    };
    let mut selected: Vec<usize> = Vec::with_capacity(count);
    let mut remaining: Vec<usize> = Vec::with_capacity(n);
    let mut i: usize = 0;
    while i < n
        invariant
            i <= n,
            remaining@.len() == i,
            forall|k: int| 0 <= k < i ==> #[trigger] remaining@[k] == k,
        decreases n - i,
    {
        remaining.push(i);
        i += 1;
    }
    assert(remaining@ =~= Seq::new(candidates@.len(), |i: int| i as usize));
    while selected.len() < count
        invariant
            n == candidates@.len(),
            n == scores@.len(),
            count <= n,
            selected@.len() <= count,
            remaining@.len() + selected@.len() == n,
            is_similarity::<T, F>(*similarity),
            arith::is_binary(*greater),
            arith::is_binary(*blend),
            forall|k: int| 0 <= k < remaining@.len() ==> (#[trigger] remaining@[k]) < n,
            forall|k: int| 0 <= k < selected@.len() ==> (#[trigger] selected@[k]) < n,
            (Picks { selected: selected@, remaining: remaining@ }) == picks_after(
                *similarity,
                *greater,
                *blend,
                candidates@,
                scores@,
                selected@.len(),
            ),
        decreases count - selected@.len(),
    {
        let ghost picks = Picks { selected: selected@, remaining: remaining@ };
        let ghost values = worth(*similarity, *greater, *blend, candidates@, scores@, picks);
        let mut found: Vec<Score> = Vec::with_capacity(remaining.len());
        let mut i: usize = 0;
        while i < remaining.len()
            invariant
                i <= remaining@.len(),
                n == candidates@.len(),
                n == scores@.len(),
                picks == (Picks { selected: selected@, remaining: remaining@ }),
                values == worth(*similarity, *greater, *blend, candidates@, scores@, picks),
                is_similarity::<T, F>(*similarity),
                arith::is_binary(*greater),
                arith::is_binary(*blend),
                forall|k: int| 0 <= k < remaining@.len() ==> (#[trigger] remaining@[k]) < n,
                forall|k: int| 0 <= k < selected@.len() ==> (#[trigger] selected@[k]) < n,
                found@ == values.take(i as int),
            decreases remaining@.len() - i,
        {
            let at: usize = remaining[i];
            let value: Score = if selected.len() == 0 {
                scores[at]
            } else {
                let closest: Score = closest_of(candidates, similarity, greater, at, &selected);
                let counted: Score = if score::is_finite(closest) {
                    closest
                } else {
                    0
                };
                arith::apply_binary(blend, scores[at], counted)
            };
            assert(value == values[i as int]);
            found.push(value);
            i += 1;
        }
        assert(found@ =~= values);
        let best: usize = find_last_greatest(&found);
        let next: usize = remaining.remove(best);
        selected.push(next);
        proof {
            assert forall|k: int| 0 <= k < remaining@.len() implies (#[trigger] remaining@[k]) < n by {
                if k < best {
                    assert(picks.remaining[k] < n);
                } else {
                    assert(picks.remaining[k + 1] < n);
                }
            }
        }
    }
    selected
}

/// How similar a candidate is to the most similar of the selected ones.
fn closest_of<T, F: Fn(&T, &T) -> Score, G: Fn(Score, Score) -> Score>(
    candidates: &[T],
    similarity: &F,
    greater: &G,
    at: usize,
    selected: &Vec<usize>,
) -> (r: Score)
    requires
        at < candidates@.len(),
        forall|k: int| 0 <= k < selected@.len() ==> (#[trigger] selected@[k]) < candidates@.len(),
        is_similarity::<T, F>(*similarity),
        arith::is_binary(*greater),
    ensures
        r == closest_similarity(*similarity, *greater, candidates@, at as int, selected@),
{
    let mut closest: Score = score::negate(score::INFINITY);
    let mut s: usize = 0;
    while s < selected.len()
        invariant
            s <= selected@.len(),
            at < candidates@.len(),
            forall|k: int| 0 <= k < selected@.len() ==> (#[trigger] selected@[k]) < candidates@.len(),
            is_similarity::<T, F>(*similarity),
            arith::is_binary(*greater),
            closest == closest_similarity(
                *similarity,
                *greater,
                candidates@,
                at as int,
                selected@.take(s as int),
            ),
        decreases selected@.len() - s,
    {
        assert(selected@.take(s + 1).drop_last() =~= selected@.take(s as int));
        assert(selected@.take(s + 1).last() == selected@[s as int]);
        let other: usize = selected[s];
        let value: Score = similarity(&candidates[at], &candidates[other]);
        assert(value == similarity_of(*similarity, candidates@[at as int], candidates@[other as int]));
        closest = arith::apply_binary(greater, closest, value);
        s += 1;
    }
    assert(selected@.take(s as int) =~= selected@);
    closest
}

/// No candidate is selected twice, and what is selected is a candidate.
pub proof fn law_selected_candidates_are_distinct<
    T,
    F: Fn(&T, &T) -> Score,
    G: Fn(Score, Score) -> Score,
    B: Fn(Score, Score) -> Score,
>(similarity: F, greater: G, blend: B, candidates: Seq<T>, scores: Seq<Score>, count: nat)
    requires
        count <= candidates.len() <= usize::MAX,
    ensures
        ({
            let picks = picks_after(similarity, greater, blend, candidates, scores, count);
            &&& picks.selected.len() == count
            &&& picks.remaining.len() == candidates.len() - count
            &&& (picks.selected + picks.remaining).no_duplicates()
            &&& forall|k: int| 0 <= k < count ==> (#[trigger] picks.selected[k]) < candidates.len()
        }),
    decreases count,
{
    let picks = picks_after(similarity, greater, blend, candidates, scores, count);
    lemma_picks(similarity, greater, blend, candidates, scores, count);
    assert forall|k: int| 0 <= k < count implies (#[trigger] picks.selected[k]) < candidates.len() by {
        assert((picks.selected + picks.remaining)[k] < candidates.len());
    }
}

proof fn lemma_picks<T, F: Fn(&T, &T) -> Score, G: Fn(Score, Score) -> Score, B: Fn(Score, Score) -> Score>(
    similarity: F,
    greater: G,
    blend: B,
    candidates: Seq<T>,
    scores: Seq<Score>,
    count: nat,
)
    requires
        count <= candidates.len() <= usize::MAX,
    ensures
        ({
            let picks = picks_after(similarity, greater, blend, candidates, scores, count);
            let all = picks.selected + picks.remaining;
            &&& picks.selected.len() == count
            &&& picks.remaining.len() == candidates.len() - count
            &&& all.no_duplicates()
            &&& forall|k: int| 0 <= k < all.len() ==> (#[trigger] all[k]) < candidates.len()
        }),
    decreases count,
{
    let picks = picks_after(similarity, greater, blend, candidates, scores, count);
    let all = picks.selected + picks.remaining;
    if count > 0 {
        let before = picks_after(similarity, greater, blend, candidates, scores, (count - 1) as nat);
        lemma_picks(similarity, greater, blend, candidates, scores, (count - 1) as nat);
        let earlier = before.selected + before.remaining;
        let values = worth(similarity, greater, blend, candidates, scores, before);
        law_last_greatest(values, values.len());
        let at = last_greatest(values, values.len());
        let s = before.selected.len() as int;
        assert forall|k: int| 0 <= k < all.len() implies #[trigger] all[k] == earlier[moved(k, s, at)] && 0 <= moved(
            k,
            s,
            at,
        ) < earlier.len() by {}
        assert forall|i: int, j: int| 0 <= i < all.len() && 0 <= j < all.len() && i != j implies all[i] != all[j] by {
            assert(all[i] == earlier[moved(i, s, at)]);
            assert(all[j] == earlier[moved(j, s, at)]);
        }
    }
}

/// What is selected stays selected when more is asked for: a smaller selection is the
/// beginning of a larger one.
pub proof fn law_selections_are_prefixes<
    T,
    F: Fn(&T, &T) -> Score,
    G: Fn(Score, Score) -> Score,
    B: Fn(Score, Score) -> Score,
>(
    similarity: F,
    greater: G,
    blend: B,
    candidates: Seq<T>,
    scores: Seq<Score>,
    fewer: nat,
    more: nat,
)
    requires
        fewer <= more <= candidates.len() <= usize::MAX,
    ensures
        picks_after(similarity, greater, blend, candidates, scores, fewer).selected == picks_after(
            similarity,
            greater,
            blend,
            candidates,
            scores,
            more,
        ).selected.take(fewer as int),
    decreases more,
{
    let small = picks_after(similarity, greater, blend, candidates, scores, fewer).selected;
    let large = picks_after(similarity, greater, blend, candidates, scores, more).selected;
    lemma_picks(similarity, greater, blend, candidates, scores, fewer);
    lemma_picks(similarity, greater, blend, candidates, scores, more);
    if fewer < more {
        let before = picks_after(similarity, greater, blend, candidates, scores, (more - 1) as nat).selected;
        law_selections_are_prefixes(similarity, greater, blend, candidates, scores, fewer, (more - 1) as nat);
        lemma_picks(similarity, greater, blend, candidates, scores, (more - 1) as nat);
        assert(large.take(fewer as int) =~= before.take(fewer as int));
    } else {
        assert(large.take(fewer as int) =~= small);
    }
}

/// Each candidate that is selected is the best that was left: the first has the best
/// score, and each next one is worth at least as much as any that was not selected
/// before it, by its score blended with how similar it is to those selected before.
pub proof fn law_each_selection_is_the_best_left<
    T,
    F: Fn(&T, &T) -> Score,
    G: Fn(Score, Score) -> Score,
    B: Fn(Score, Score) -> Score,
>(
    similarity: F,
    greater: G,
    blend: B,
    candidates: Seq<T>,
    scores: Seq<Score>,
    count: nat,
    i: int,
    other: usize,
)
    requires
        count <= candidates.len() <= usize::MAX,
        0 <= i < count,
        other < candidates.len(),
        !picks_after(similarity, greater, blend, candidates, scores, count).selected.take(i).contains(other),
    ensures
        ({
            let selected = picks_after(similarity, greater, blend, candidates, scores, count).selected;
            let earlier = selected.take(i);
            if i == 0 {
                score::total_key(scores[other as int]) <= score::total_key(scores[selected[0] as int])
            } else {
                score::total_key(marginal(similarity, greater, blend, candidates, scores, other as int, earlier))
                    <= score::total_key(
                    marginal(similarity, greater, blend, candidates, scores, selected[i] as int, earlier),
                )
            }
        }),
{
    let picks = picks_after(similarity, greater, blend, candidates, scores, i as nat);
    let next = picks_after(similarity, greater, blend, candidates, scores, (i + 1) as nat);
    let selected = picks_after(similarity, greater, blend, candidates, scores, count).selected;
    law_selections_are_prefixes(similarity, greater, blend, candidates, scores, i as nat, count);
    law_selections_are_prefixes(similarity, greater, blend, candidates, scores, (i + 1) as nat, count);
    lemma_picks(similarity, greater, blend, candidates, scores, i as nat);
    lemma_picks(similarity, greater, blend, candidates, scores, (i + 1) as nat);
    lemma_picks(similarity, greater, blend, candidates, scores, count);
    lemma_left_or_selected(similarity, greater, blend, candidates, scores, i as nat, other);
    let values = worth(similarity, greater, blend, candidates, scores, picks);
    law_last_greatest(values, values.len());
    let at = last_greatest(values, values.len());
    assert(next.selected[i] == picks.remaining[at]);
    assert(selected.take(i + 1)[i] == selected[i]);
    let k = choose|k: int| 0 <= k < picks.remaining.len() && picks.remaining[k] == other;
    assert(score::total_key(values[k]) <= score::total_key(values[at]));
}

/// Every candidate is selected or left.
proof fn lemma_left_or_selected<
    T,
    F: Fn(&T, &T) -> Score,
    G: Fn(Score, Score) -> Score,
    B: Fn(Score, Score) -> Score,
>(
    similarity: F,
    greater: G,
    blend: B,
    candidates: Seq<T>,
    scores: Seq<Score>,
    count: nat,
    other: usize,
)
    requires
        count <= candidates.len() <= usize::MAX,
        other < candidates.len(),
    ensures
        ({
            let picks = picks_after(similarity, greater, blend, candidates, scores, count);
            picks.selected.contains(other) || picks.remaining.contains(other)
        }),
    decreases count,
{
    let picks = picks_after(similarity, greater, blend, candidates, scores, count);
    if count == 0 {
        assert(picks.remaining[other as int] == other);
    } else {
        let before = picks_after(similarity, greater, blend, candidates, scores, (count - 1) as nat);
        lemma_left_or_selected(similarity, greater, blend, candidates, scores, (count - 1) as nat, other);
        lemma_picks(similarity, greater, blend, candidates, scores, (count - 1) as nat);
        let values = worth(similarity, greater, blend, candidates, scores, before);
        law_last_greatest(values, values.len());
        let at = last_greatest(values, values.len());
        if before.selected.contains(other) {
            let k = choose|k: int| 0 <= k < before.selected.len() && before.selected[k] == other;
            assert(picks.selected[k] == other);
        } else {
            let k = choose|k: int| 0 <= k < before.remaining.len() && before.remaining[k] == other;
            if k == at {
                assert(picks.selected[before.selected.len() as int] == other);
            } else if k < at {
                assert(picks.remaining[k] == other);
            } else {
                assert(picks.remaining[k - 1] == other);
            }
        }
    }
}

/// Whether a blend goes by relevance alone: of two scores the greater one stays the
/// greater, whatever similarity each is blended with.
pub open spec fn is_relevance_alone<B: Fn(Score, Score) -> Score>(blend: B) -> bool {
    forall|a: Score, b: Score, x: Score, y: Score|
        score::less(b, a) && score::finite(x) && score::finite(y) ==> score::total_key(
            #[trigger] arith::binary(blend, b, y),
        ) < score::total_key(#[trigger] arith::binary(blend, a, x))
}

/// Where only relevance counts, the selection is the top by score: no candidate that is
/// not selected has a greater score than one that is.
pub proof fn law_relevance_alone_selects_the_top<
    T,
    F: Fn(&T, &T) -> Score,
    G: Fn(Score, Score) -> Score,
    B: Fn(Score, Score) -> Score,
>(
    similarity: F,
    greater: G,
    blend: B,
    candidates: Seq<T>,
    scores: Seq<Score>,
    count: nat,
    i: int,
    other: usize,
)
    requires
        count <= candidates.len() <= usize::MAX,
        is_relevance_alone(blend),
        0 <= i < count,
        other < candidates.len(),
        !picks_after(similarity, greater, blend, candidates, scores, count).selected.contains(other),
    ensures
        !score::less(
            scores[picks_after(similarity, greater, blend, candidates, scores, count).selected[i] as int],
            scores[other as int],
        ),
{
    let selected = picks_after(similarity, greater, blend, candidates, scores, count).selected;
    law_selected_candidates_are_distinct(similarity, greater, blend, candidates, scores, count);
    assert(!selected.take(i).contains(other)) by {
        if selected.take(i).contains(other) {
            let k = choose|k: int| 0 <= k < i && selected.take(i)[k] == other;
            assert(selected[k] == other);
        }
    }
    law_each_selection_is_the_best_left(similarity, greater, blend, candidates, scores, count, i, other);
    if i > 0 {
        let earlier = selected.take(i);
        let x = closest_similarity(similarity, greater, candidates, other as int, earlier);
        let y = closest_similarity(similarity, greater, candidates, selected[i] as int, earlier);
        let a = arith::binary(blend, scores[other as int], if score::finite(x) { x } else { 0 });
        let b = arith::binary(blend, scores[selected[i] as int], if score::finite(y) { y } else { 0 });
        assert(a == marginal(similarity, greater, blend, candidates, scores, other as int, earlier));
        assert(b == marginal(similarity, greater, blend, candidates, scores, selected[i] as int, earlier));
    }
}

/// Where an entry stood before the one at `s + at` was moved to `s`.
spec fn moved(k: int, s: int, at: int) -> int {
    if k < s {
        k
    } else if k == s {
        s + at
    } else if k - 1 < s + at {
        k - 1
    } else {
        k
    }
}

/// A result with the key of the group that it belongs to.
pub struct GroupedResult<K> {
    pub id: u64,
    pub score: Score,
    pub group: K,
}

/// A result by its position, with the group that it belongs to: the position of the
/// first result with the same key.
pub struct GroupedView {
    pub at: int,
    pub id: u64,
    pub score: Score,
    pub group: int,
}

/// Whether `same` takes any two keys and gives the same answer for the same two.
pub open spec fn is_same_key<K, E: Fn(&K, &K) -> bool>(same: E) -> bool {
    &&& forall|a: &K, b: &K| #[trigger] same.requires((a, b))
    &&& forall|a: &K, b: &K, r: bool, s: bool|
        #[trigger] same.ensures((a, b), r) && #[trigger] same.ensures((a, b), s) ==> r == s
}

/// Whether two keys are the same.
pub open spec fn keys_match<K, E: Fn(&K, &K) -> bool>(same: E, a: K, b: K) -> bool {
    same.ensures((&a, &b), true)
}

/// The first position up to `at` whose key is that of `at`, from `from` on.
pub open spec fn first_alike<K, E: Fn(&K, &K) -> bool>(
    same: E,
    results: Seq<GroupedResult<K>>,
    at: int,
    from: int,
) -> int
    decreases at - from,
{
    if from >= at || keys_match(same, results[from].group, results[at].group) {
        from
    } else {
        first_alike(same, results, at, from + 1)
    }
}

/// The results by their positions.
pub open spec fn grouped_view<K, E: Fn(&K, &K) -> bool>(same: E, results: Seq<GroupedResult<K>>) -> Seq<GroupedView> {
    Seq::new(
        results.len(),
        |i: int|
            GroupedView {
                at: i,
                id: results[i].id,
                score: results[i].score,
                group: first_alike(same, results, i, 0),
            },
    )
}

/// For each result the position of the first with the same key.
fn first_positions<K, E: Fn(&K, &K) -> bool>(results: &[GroupedResult<K>], same: &E) -> (r: Vec<usize>)
    requires
        is_same_key(*same),
    ensures
        r@.len() == results@.len(),
        forall|i: int|
            0 <= i < r@.len() ==> #[trigger] r@[i] == grouped_view(*same, results@)[i].group && r@[i] < results@.len(),
{
    let mut out: Vec<usize> = Vec::with_capacity(results.len());
    let mut i: usize = 0;
    while i < results.len()
        invariant
            i <= results@.len(),
            is_same_key(*same),
            out@.len() == i,
            forall|k: int|
                0 <= k < i ==> #[trigger] out@[k] == grouped_view(*same, results@)[k].group && out@[k] < results@.len(),
        decreases results@.len() - i,
    {
        let mut from: usize = 0;
        while from < i && !same(&results[from].group, &results[i].group)
            invariant
                from <= i < results@.len(),
                is_same_key(*same),
                first_alike(*same, results@, i as int, 0) == first_alike(*same, results@, i as int, from as int),
            decreases i - from,
        {
            from += 1;
        }
        out.push(from);
        i += 1;
    }
    out
}

/// The first of the first `upto` results of a group.
pub open spec fn leader(results: Seq<GroupedView>, group: int, upto: nat) -> Option<int>
    decreases upto,
{
    if upto == 0 {
        None
    } else {
        match leader(results, group, (upto - 1) as nat) {
            Some(at) => Some(at),
            None => if results[upto - 1].group == group {
                Some(upto - 1)
            } else {
                None
            },
        }
    }
}

/// How many of the first `upto` results belong to a group.
pub open spec fn members(results: Seq<GroupedView>, group: int, upto: nat) -> nat
    decreases upto,
{
    if upto == 0 {
        0
    } else {
        members(results, group, (upto - 1) as nat) + if results[upto - 1].group == group {
            1nat
        } else {
            0nat
        }
    }
}

/// The first results of the groups among the first `upto` results, each by its
/// position and its score.
pub open spec fn leaders(results: Seq<GroupedView>, upto: nat) -> Seq<(u64, Score)>
    decreases upto,
{
    if upto == 0 {
        Seq::empty()
    } else {
        let before = leaders(results, (upto - 1) as nat);
        if leader(results, results[upto - 1].group, (upto - 1) as nat) is None {
            before.push(((upto - 1) as u64, results[upto - 1].score))
        } else {
            before
        }
    }
}

/// The groups that are kept, by the positions of their first results: those whose
/// first results score best, the earlier ones among equals.
pub open spec fn kept_groups(results: Seq<GroupedView>, total_groups: int) -> Seq<(u64, Score)> {
    let all = order::ranking(leaders(results, results.len()));
    all.take(if total_groups < all.len() { total_groups } else { all.len() as int })
}

/// Whether a group is kept.
pub open spec fn is_kept(results: Seq<GroupedView>, total_groups: int, group: int) -> bool {
    exists|k: int|
        0 <= k < kept_groups(results, total_groups).len() && Some(
            (#[trigger] kept_groups(results, total_groups)[k]).0 as int,
        ) == leader(results, group, results.len())
}

/// The first `upto` results of those that stand among the first of their group,
/// whose group is kept.
pub open spec fn grouped(results: Seq<GroupedView>, per_group: int, total_groups: int, upto: nat) -> Seq<GroupedView>
    decreases upto,
{
    if upto == 0 {
        Seq::empty()
    } else {
        let before = grouped(results, per_group, total_groups, (upto - 1) as nat);
        let last = results[upto - 1];
        if members(results, last.group, (upto - 1) as nat) < per_group && is_kept(results, total_groups, last.group) {
            before.push(last)
        } else {
            before
        }
    }
}

/// Where the groups of the first results stand, and how many members they have.
struct Groups {
    /// The position of each group's first result.
    leaders: Vec<(u64, Score)>,
    /// For each result, which of the groups it belongs to.
    group_of: Vec<usize>,
    /// For each result, how many of its group stand before it.
    rank_of: Vec<usize>,
}

spec fn groups_ok(results: Seq<GroupedView>, groups: Groups, upto: nat) -> bool {
    &&& groups.leaders@ == leaders(results, upto)
    &&& groups.group_of@.len() == upto
    &&& groups.rank_of@.len() == upto
    &&& forall|i: int|
        0 <= i < upto ==> (#[trigger] groups.group_of@[i]) < groups.leaders@.len() && leader(
            results,
            results[i].group,
            upto,
        ) == Some(groups.leaders@[groups.group_of@[i] as int].0 as int)
    &&& forall|i: int|
        0 <= i < upto ==> #[trigger] groups.rank_of@[i] == members(results, results[i].group, i as nat)
}

proof fn lemma_members_bound(results: Seq<GroupedView>, group: int, upto: nat)
    ensures
        members(results, group, upto) <= upto,
    decreases upto,
{
    if upto > 0 {
        lemma_members_bound(results, group, (upto - 1) as nat);
    }
}

/// Whether the slot of a group holds which of the groups it is and how many members it
/// has so far.
spec fn slot_ok(results: Seq<GroupedView>, groups: Groups, slots: Seq<(usize, usize)>, name: int, upto: nat) -> bool {
    &&& slots[name].1 == members(results, name, upto)
    &&& slots[name].1 == 0 <==> leader(results, name, upto) is None
    &&& slots[name].1 > 0 ==> slots[name].0 < groups.leaders@.len() && leader(results, name, upto) == Some(
        groups.leaders@[slots[name].0 as int].0 as int,
    )
}

/// Finds the groups of results.
fn find_groups<K, E: Fn(&K, &K) -> bool>(results: &[GroupedResult<K>], same: &E) -> (r: Groups)
    requires
        is_same_key(*same),
    ensures
        groups_ok(grouped_view(*same, results@), r, results@.len()),
{
    let ghost view = grouped_view(*same, results@);
    let total: usize = results.len();
    let firsts: Vec<usize> = first_positions(results, same);
    let mut slots: Vec<(usize, usize)> = Vec::with_capacity(total);
    while slots.len() < total
        invariant
            slots@.len() <= total,
            forall|k: int| 0 <= k < slots@.len() ==> #[trigger] slots@[k] == (0usize, 0usize),
        decreases total - slots@.len(),
    {
        slots.push((0, 0));
    }
    let mut groups = Groups { leaders: Vec::new(), group_of: Vec::new(), rank_of: Vec::new() };
    let mut i: usize = 0;
    while i < results.len()
        invariant
            i <= results@.len(),
            view == grouped_view(*same, results@),
            total == results@.len(),
            slots@.len() == total,
            firsts@.len() == total,
            forall|k: int| 0 <= k < total ==> #[trigger] firsts@[k] == view[k].group && firsts@[k] < total,
            groups_ok(view, groups, i as nat),
            forall|name: int|
                #![trigger slots@[name]]
                0 <= name < total ==> slot_ok(view, groups, slots@, name, i as nat),
        decreases results@.len() - i,
    {
        let ghost before = groups;
        let ghost earlier = slots@;
        let ghost group = view[i as int].group;
        let first: usize = firsts[i];
        proof {
            lemma_members_bound(view, group, i as nat);
            assert(slot_ok(view, groups, slots@, first as int, i as nat));
        }
        let (known, count): (usize, usize) = slots[first];
        let at: usize = if count > 0 {
            known
        } else {
            let at: usize = groups.leaders.len();
            groups.leaders.push((i as u64, results[i].score));
            at
        };
        groups.group_of.push(at);
        groups.rank_of.push(count);
        slots.set(first, (at, count + 1));
        proof {
            assert(groups.leaders@ =~= leaders(view, (i + 1) as nat));
            assert forall|k: int| 0 <= k < i + 1 implies (#[trigger] groups.group_of@[k]) < groups.leaders@.len()
                && leader(view, view[k].group, (i + 1) as nat) == Some(
                groups.leaders@[groups.group_of@[k] as int].0 as int,
            ) by {
                if k < i {
                    assert(before.group_of@[k] == groups.group_of@[k]);
                    assert(leader(view, view[k].group, i as nat) is Some);
                }
            }
            assert forall|k: int| 0 <= k < i + 1 implies #[trigger] groups.rank_of@[k] == members(
                view,
                view[k].group,
                k as nat,
            ) by {
                if k < i {
                    assert(before.rank_of@[k] == groups.rank_of@[k]);
                }
            }
            assert forall|name: int| #![trigger slots@[name]] 0 <= name < total implies slot_ok(
                view,
                groups,
                slots@,
                name,
                (i + 1) as nat,
            ) by {
                assert(slot_ok(view, before, earlier, name, i as nat)) by {
                    assert(earlier[name] == earlier[name]);
                }
            }
        }
        i += 1;
    }
    groups
}

/// The first `per_group` results of each group, for up to `total_groups` groups,
/// in their order: the groups whose first results score best, the earlier ones
/// among equals. `same` says whether two keys are of one group.
pub fn group_by_top_n<K: Clone, E: Fn(&K, &K) -> bool>(
    results: &[GroupedResult<K>],
    per_group: usize,
    total_groups: usize,
    same: &E,
) -> (r: Vec<GroupedResult<K>>)
    requires
        is_same_key(*same),
    ensures
        are_copies(
            results@,
            grouped(grouped_view(*same, results@), per_group as int, total_groups as int, results@.len()),
            r@,
        ),
{
    let ghost view = grouped_view(*same, results@);
    let n: usize = results.len();
    let groups: Groups = find_groups(results, same);
    let kept: Vec<(u64, Score)> = order::rank(groups.leaders.as_slice(), total_groups);
    proof {
        order::law_ranking(groups.leaders@);
        assert(kept@ == kept_groups(view, total_groups as int));
    }
    let mut out: Vec<GroupedResult<K>> = Vec::new();
    let mut i: usize = 0;
    while i < n
        invariant
            i <= n,
            n == results@.len(),
            view == grouped_view(*same, results@),
            groups_ok(view, groups, n as nat),
            kept@ == kept_groups(view, total_groups as int),
            are_copies(results@, grouped(view, per_group as int, total_groups as int, i as nat), out@),
        decreases n - i,
    {
        assert(groups.group_of@[i as int] < groups.leaders@.len());
        assert(groups.rank_of@[i as int] == members(view, view[i as int].group, i as nat));
        let first: u64 = groups.leaders[groups.group_of[i]].0;
        let chosen: bool = is_among(&kept, first);
        assert(chosen == is_kept(view, total_groups as int, view[i as int].group)) by {
            let group = view[i as int].group;
            assert(leader(view, group, n as nat) == Some(first as int));
            if chosen {
                let k = choose|k: int| 0 <= k < kept@.len() && (#[trigger] kept@[k]).0 == first;
                assert(Some(kept_groups(view, total_groups as int)[k].0 as int) == leader(view, group, view.len()));
            }
            if is_kept(view, total_groups as int, group) {
                let k = choose|k: int|
                    0 <= k < kept_groups(view, total_groups as int).len() && Some(
                        (#[trigger] kept_groups(view, total_groups as int)[k]).0 as int,
                    ) == leader(view, group, view.len());
                assert(kept@[k].0 == first);
            }
        }
        if groups.rank_of[i] < per_group && chosen {
            let group: K = results[i].group.clone();
            assert(cloned(results@[i as int].group, group));
            out.push(GroupedResult { id: results[i].id, score: results[i].score, group });
        }
        i += 1;
    }
    out
}

/// Whether a list holds the results at the positions of others, with copies of their
/// keys.
pub open spec fn are_copies<K: Clone>(
    results: Seq<GroupedResult<K>>,
    list: Seq<GroupedView>,
    out: Seq<GroupedResult<K>>,
) -> bool {
    &&& out.len() == list.len()
    &&& forall|i: int|
        0 <= i < out.len() ==> (#[trigger] out[i]).id == list[i].id && out[i].score == list[i].score && cloned(
            results[list[i].at].group,
            out[i].group,
        )
}

/// A group has no more than `per_group` results left.
pub proof fn law_group_sizes(
    results: Seq<GroupedView>,
    per_group: int,
    total_groups: int,
    upto: nat,
    group: int,
)
    requires
        upto <= results.len(),
        per_group >= 0,
    ensures
        ({
            let out = grouped(results, per_group, total_groups, upto);
            &&& members(out, group, out.len()) <= per_group
            &&& members(out, group, out.len()) <= members(results, group, upto)
            &&& !is_kept(results, total_groups, group) ==> members(out, group, out.len()) == 0
        }),
    decreases upto,
{
    if upto > 0 {
        let k = (upto - 1) as nat;
        law_group_sizes(results, per_group, total_groups, k, group);
        let before = grouped(results, per_group, total_groups, k);
        let out = grouped(results, per_group, total_groups, upto);
        if out.len() > before.len() {
            lemma_members_prefix(before, out, group, before.len());
        }
    }
}

proof fn lemma_members_prefix(a: Seq<GroupedView>, b: Seq<GroupedView>, group: int, upto: nat)
    requires
        upto <= a.len(),
        upto <= b.len(),
        forall|i: int| 0 <= i < upto ==> a[i] == b[i],
    ensures
        members(a, group, upto) == members(b, group, upto),
    decreases upto,
{
    if upto > 0 {
        lemma_members_prefix(a, b, group, (upto - 1) as nat);
    }
}

/// Whether an id is among items.
fn is_among(items: &Vec<(u64, Score)>, id: u64) -> (r: bool)
    ensures
        r == exists|k: int| 0 <= k < items@.len() && (#[trigger] items@[k]).0 == id,
{
    let mut k: usize = 0;
    while k < items.len()
        invariant
            k <= items@.len(),
            forall|j: int| 0 <= j < k ==> (#[trigger] items@[j]).0 != id,
        decreases items@.len() - k,
    {
        if items[k].0 == id {
            return true;
        }
        k += 1;
    }
    false
}

} // verus!
