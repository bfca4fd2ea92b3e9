//! What selections hold: candidates that are relevant and unlike, and results by
//! groups.

use vstd::prelude::*;
use crate::arith;
use crate::rerank;
use crate::score;
use crate::score::Score;

verus! {

/// Whether a function gives the greater of two numbers.
pub open spec fn gives_the_greater<G: Fn(Score, Score) -> Score>(greater: G) -> bool {
    forall|a: Score, b: Score|
        !score::nan(a) && !score::nan(b) ==> {
            let r = #[trigger] arith::binary(greater, a, b);
            (r == a || r == b) && !score::less(r, a) && !score::less(r, b)
        }
}

/// The similarity that counts against a candidate is the greatest over all selected
/// ones: none of them is more similar, and one of them is as similar.
pub proof fn law_closest_similarity_is_the_greatest<T, F: Fn(&T, &T) -> Score, G: Fn(Score, Score) -> Score>(
    similarity: F,
    greater: G,
    candidates: Seq<T>,
    at: int,
    selected: Seq<usize>,
)
    requires
        gives_the_greater(greater),
        selected.len() > 0,
        forall|s: int|
            0 <= s < selected.len() ==> !score::nan(
                rerank::similarity_of(similarity, candidates[at], candidates[#[trigger] selected[s] as int]),
            ),
    ensures
        ({
            let closest = rerank::closest_similarity(similarity, greater, candidates, at, selected);
            &&& !score::nan(closest)
            &&& forall|s: int|
                0 <= s < selected.len() ==> !score::less(
                    closest,
                    rerank::similarity_of(similarity, candidates[at], candidates[#[trigger] selected[s] as int]),
                )
            &&& exists|s: int|
                0 <= s < selected.len() && closest == rerank::similarity_of(
                    similarity,
                    candidates[at],
                    candidates[#[trigger] selected[s] as int],
                )
        }),
    decreases selected.len(),
{
    let rest = selected.drop_last();
    let closest = rerank::closest_similarity(similarity, greater, candidates, at, selected);
    let before = rerank::closest_similarity(similarity, greater, candidates, at, rest);
    let last = selected[selected.len() - 1];
    let own = rerank::similarity_of(similarity, candidates[at], candidates[last as int]);
    assert(last == selected.last());
    assert(!score::nan(own));
    assert(closest == arith::binary(greater, before, own));
    if rest.len() > 0 {
        assert forall|s: int| 0 <= s < rest.len() implies !score::nan(
            rerank::similarity_of(similarity, candidates[at], candidates[#[trigger] rest[s] as int]),
        ) by {
            assert(rest[s] == selected[s]);
        }
        law_closest_similarity_is_the_greatest(similarity, greater, candidates, at, rest);
        assert forall|s: int| 0 <= s < selected.len() implies !score::less(
            closest,
            rerank::similarity_of(similarity, candidates[at], candidates[#[trigger] selected[s] as int]),
        ) by {
            if s < rest.len() {
                assert(rest[s] == selected[s]);
            }
        }
        if closest == before {
            let s = choose|s: int|
                0 <= s < rest.len() && before == rerank::similarity_of(
                    similarity,
                    candidates[at],
                    candidates[#[trigger] rest[s] as int],
                );
            assert(rest[s] == selected[s]);
        }
    } else {
        assert(before == score::negated(score::INFINITY));
    }
}

/// What counts against a candidate: how similar it is to the most similar of those
/// selected before, from negative infinity; zero where that is not finite.
pub open spec fn likeness<T, F: Fn(&T, &T) -> Score, G: Fn(Score, Score) -> Score>(
    similarity: F,
    greater: G,
    candidates: Seq<T>,
    earlier: Seq<usize>,
    c: int,
) -> Score {
    let most = earlier.fold_left(
        score::negated(score::INFINITY),
        |most: Score, s: usize|
            arith::binary(greater, most, rerank::similarity_of(similarity, candidates[c], candidates[s as int])),
    );
    if score::finite(most) {
        most
    } else {
        0
    }
}

proof fn lemma_likeness<T, F: Fn(&T, &T) -> Score, G: Fn(Score, Score) -> Score>(
    similarity: F,
    greater: G,
    candidates: Seq<T>,
    earlier: Seq<usize>,
    c: int,
    f: spec_fn(Score, usize) -> Score,
)
    requires
        forall|most: Score, s: usize| #[trigger]
            f(most, s) == arith::binary(
                greater,
                most,
                rerank::similarity_of(similarity, candidates[c], candidates[s as int]),
            ),
    ensures
        rerank::closest_similarity(similarity, greater, candidates, c, earlier) == earlier.fold_left(
            score::negated(score::INFINITY),
            f,
        ),
    decreases earlier.len(),
{
    if earlier.len() > 0 {
        lemma_likeness(similarity, greater, candidates, earlier.drop_last(), c, f);
    }
}

/// What is left stays in its order.
proof fn lemma_left_in_order<
    T,
    F: Fn(&T, &T) -> Score,
    G: Fn(Score, Score) -> Score,
    B: Fn(Score, Score) -> Score,
>(
    similarity: F,
    greater: G,
    blend: B,
    candidates: Seq<T>,
    scores: Seq<Score>,
    count: nat,
)
    requires
        count <= candidates.len() <= usize::MAX,
    ensures
        ({
            let picks = rerank::picks_after(similarity, greater, blend, candidates, scores, count);
            &&& picks.remaining.len() == candidates.len() - count
            &&& picks.selected.len() == count
            &&& forall|i: int, j: int|
                0 <= i < j < picks.remaining.len() ==> #[trigger] picks.remaining[i] < #[trigger] picks.remaining[j]
            &&& forall|c: usize|
                c < candidates.len() ==> #[trigger] picks.selected.contains(c) || picks.remaining.contains(c)
        }),
    decreases count,
{
    let picks = rerank::picks_after(similarity, greater, blend, candidates, scores, count);
    if count == 0 {
        assert forall|c: usize| c < candidates.len() implies #[trigger] picks.selected.contains(c)
            || picks.remaining.contains(c) by {
            assert(picks.remaining[c as int] == c);
        }
    } else {
        let before = rerank::picks_after(similarity, greater, blend, candidates, scores, (count - 1) as nat);
        lemma_left_in_order(similarity, greater, blend, candidates, scores, (count - 1) as nat);
        let values = rerank::worth(similarity, greater, blend, candidates, scores, before);
        rerank::law_last_greatest(values, values.len());
        let at = rerank::last_greatest(values, values.len());
        assert forall|c: usize| c < candidates.len() implies #[trigger] picks.selected.contains(c)
            || picks.remaining.contains(c) by {
            assert(before.selected.contains(c) || before.remaining.contains(c));
            if before.selected.contains(c) {
                let k = choose|k: int| 0 <= k < before.selected.len() && before.selected[k] == c;
                assert(picks.selected[k] == c);
            } else {
                let k = choose|k: int| 0 <= k < before.remaining.len() && before.remaining[k] == c;
                if k == at {
                    assert(picks.selected[before.selected.len() as int] == c);
                } else if k < at {
                    assert(picks.remaining[k] == c);
                } else {
                    assert(picks.remaining[k - 1] == c);
                }
            }
        }
    }
}

/// Each selection is the best of what was left: the first by its score alone, each next
/// one by its score blended with how alike it is to the most alike of all selected
/// before it; among equals the one that comes last.
pub proof fn law_selections_are_relevant_and_unlike<
    T,
    F: Fn(&T, &T) -> Score,
    G: Fn(Score, Score) -> Score,
    B: Fn(Score, Score) -> Score,
>(
    similarity: F,
    greater: G,
    blend: B,
    candidates: Seq<T>,
    scores: Seq<Score>,
    count: nat,
    i: int,
    other: usize,
)
    requires
        count <= candidates.len() <= usize::MAX,
        0 <= i < count,
        other < candidates.len(),
        !rerank::picks_after(similarity, greater, blend, candidates, scores, count).selected.take(i + 1).contains(
            other,
        ),
    ensures
        ({
            let selected = rerank::picks_after(similarity, greater, blend, candidates, scores, count).selected;
            let worth = |c: int|
                if i == 0 {
                    scores[c]
                } else {
                    arith::binary(
                        blend,
                        scores[c],
                        likeness(similarity, greater, candidates, selected.take(i), c),
                    )
                };
            &&& selected.len() == count
            &&& selected[i] < candidates.len()
            &&& !selected.take(i).contains(selected[i])
            &&& score::total_key(worth(other as int)) <= score::total_key(worth(selected[i] as int))
            &&& score::total_key(worth(other as int)) == score::total_key(worth(selected[i] as int)) ==> other
                < selected[i]
        }),
{
    let picks = rerank::picks_after(similarity, greater, blend, candidates, scores, i as nat);
    let next = rerank::picks_after(similarity, greater, blend, candidates, scores, (i + 1) as nat);
    let selected = rerank::picks_after(similarity, greater, blend, candidates, scores, count).selected;
    rerank::law_selections_are_prefixes(similarity, greater, blend, candidates, scores, i as nat, count);
    rerank::law_selections_are_prefixes(similarity, greater, blend, candidates, scores, (i + 1) as nat, count);
    rerank::law_selected_candidates_are_distinct(similarity, greater, blend, candidates, scores, count);
    lemma_left_in_order(similarity, greater, blend, candidates, scores, i as nat);
    let values = rerank::worth(similarity, greater, blend, candidates, scores, picks);
    rerank::law_last_greatest(values, values.len());
    let at = rerank::last_greatest(values, values.len());
    assert(next.selected[i] == picks.remaining[at]);
    assert(selected.take(i + 1)[i] == selected[i]);
    assert(!picks.selected.contains(other)) by {
        if picks.selected.contains(other) {
            let k = choose|k: int| 0 <= k < i && picks.selected[k] == other;
            assert(selected.take(i)[k] == other);
            assert(selected.take(i + 1)[k] == other);
        }
    }
    let k = choose|k: int| 0 <= k < picks.remaining.len() && picks.remaining[k] == other;
    assert(picks.remaining.contains(other));
    assert(k != at) by {
        if k == at {
            assert(selected.take(i + 1)[i] == other);
        }
    }
    assert(!selected.take(i).contains(selected[i])) by {
        if selected.take(i).contains(selected[i]) {
            let j = choose|j: int| 0 <= j < i && selected.take(i)[j] == selected[i];
            let all = selected + rerank::picks_after(
                similarity,
                greater,
                blend,
                candidates,
                scores,
                count,
            ).remaining;
            assert(all[j] == all[i]);
        }
    }
    assert(score::total_key(values[k]) <= score::total_key(values[at]));
    if i > 0 {
        let earlier = selected.take(i);
        assert(earlier == picks.selected);
        lemma_worth(similarity, greater, blend, candidates, scores, earlier, other as int);
        lemma_worth(similarity, greater, blend, candidates, scores, earlier, selected[i] as int);
    }
    if k > at {
        assert(score::total_key(values[k]) < score::total_key(values[at]));
    } else {
        assert(picks.remaining[k] < picks.remaining[at]);
    }
}

proof fn lemma_worth<
    T,
    F: Fn(&T, &T) -> Score,
    G: Fn(Score, Score) -> Score,
    B: Fn(Score, Score) -> Score,
>(
    similarity: F,
    greater: G,
    blend: B,
    candidates: Seq<T>,
    scores: Seq<Score>,
    earlier: Seq<usize>,
    c: int,
)
    ensures
        rerank::marginal(similarity, greater, blend, candidates, scores, c, earlier) == arith::binary(
            blend,
            scores[c],
            likeness(similarity, greater, candidates, earlier, c),
        ),
{
    lemma_likeness(
        similarity,
        greater,
        candidates,
        earlier,
        c,
        |most: Score, s: usize|
            arith::binary(greater, most, rerank::similarity_of(similarity, candidates[c], candidates[s as int])),
    );
}

} // verus!
