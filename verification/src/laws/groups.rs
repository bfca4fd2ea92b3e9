//! What results by groups hold: which groups are kept, and which of their results.

use vstd::prelude::*;
use crate::laws::encode::numbers;
use crate::order;
use crate::rerank;
use crate::rerank::GroupedResult;
use crate::score;
use crate::score::Score;

verus! {

/// Whether two results have the same key.
pub open spec fn alike<K, E: Fn(&K, &K) -> bool>(same: E, results: Seq<GroupedResult<K>>, i: int, j: int) -> bool {
    rerank::keys_match(same, results[i].group, results[j].group)
}

/// Whether sameness of the keys of results is an equivalence.
pub open spec fn is_equivalence<K, E: Fn(&K, &K) -> bool>(same: E, results: Seq<GroupedResult<K>>) -> bool {
    &&& forall|i: int| 0 <= i < results.len() ==> #[trigger] alike(same, results, i, i)
    &&& forall|i: int, j: int|
        0 <= i < results.len() && 0 <= j < results.len() && #[trigger] alike(same, results, i, j) ==> alike(
            same,
            results,
            j,
            i,
        )
    &&& forall|i: int, j: int, k: int|
        0 <= i < results.len() && 0 <= j < results.len() && 0 <= k < results.len() && #[trigger] alike(
            same,
            results,
            i,
            j,
        ) && #[trigger] alike(same, results, j, k) ==> alike(same, results, i, k)
}

/// Whether a result is the first with its key.
pub open spec fn is_first<K, E: Fn(&K, &K) -> bool>(same: E, results: Seq<GroupedResult<K>>, i: int) -> bool {
    0 <= i < results.len() && forall|j: int| 0 <= j < i ==> !#[trigger] alike(same, results, j, i)
}

/// Whether a result scores better than another, or the same and comes before it.
pub open spec fn leads<K>(results: Seq<GroupedResult<K>>, i: int, j: int) -> bool {
    score::total_key(results[j].score) < score::total_key(results[i].score) || (score::total_key(results[j].score)
        == score::total_key(results[i].score) && i < j)
}

/// Whether these are the first results of the groups that are kept: the best of all
/// first results, all of them or as many as asked for.
pub open spec fn are_best_firsts<K, E: Fn(&K, &K) -> bool>(
    same: E,
    results: Seq<GroupedResult<K>>,
    limit: int,
    kept: Seq<int>,
) -> bool {
    &&& kept.len() <= limit
    &&& forall|k: int| 0 <= k < kept.len() ==> is_first(same, results, #[trigger] kept[k])
    &&& forall|i: int, j: int| 0 <= i < j < kept.len() ==> leads(results, #[trigger] kept[i], #[trigger] kept[j])
    &&& forall|l: int| #[trigger]
        is_first(same, results, l) && !kept.contains(l) ==> kept.len() == limit && forall|k: int|
            0 <= k < kept.len() ==> leads(results, #[trigger] kept[k], l)
}

/// Whether a result is among the first of its group, and its group is kept.
pub open spec fn is_wanted<K, E: Fn(&K, &K) -> bool>(
    same: E,
    results: Seq<GroupedResult<K>>,
    per_group: int,
    kept: Seq<int>,
    i: int,
) -> bool {
    &&& 0 <= i < results.len()
    &&& numbers(i as nat).filter(|j: int| alike(same, results, j, i)).len() < per_group
    &&& exists|k: int| 0 <= k < kept.len() && alike(same, results, #[trigger] kept[k], i)
}

proof fn lemma_group<K, E: Fn(&K, &K) -> bool>(same: E, results: Seq<GroupedResult<K>>, at: int, from: int)
    requires
        is_equivalence(same, results),
        0 <= from <= at < results.len(),
        forall|j: int| 0 <= j < from ==> !#[trigger] alike(same, results, j, at),
    ensures
        ({
            let g = rerank::first_alike(same, results, at, from);
            0 <= g <= at && alike(same, results, g, at) && is_first(same, results, g)
        }),
    decreases at - from,
{
    let g = rerank::first_alike(same, results, at, from);
    assert(alike(same, results, at, at));
    if from >= at || rerank::keys_match(same, results[from].group, results[at].group) {
        assert(alike(same, results, from, at));
        assert forall|j: int| 0 <= j < g implies !#[trigger] alike(same, results, j, g) by {
            if alike(same, results, j, g) {
                assert(alike(same, results, g, at));
                assert(alike(same, results, j, at));
            }
        }
    } else {
        assert(!alike(same, results, from, at));
        lemma_group(same, results, at, from + 1);
    }
}

/// Two results have the same group where their keys are the same.
proof fn lemma_same_group<K, E: Fn(&K, &K) -> bool>(same: E, results: Seq<GroupedResult<K>>, i: int, j: int)
    requires
        is_equivalence(same, results),
        0 <= i < results.len(),
        0 <= j < results.len(),
    ensures
        rerank::first_alike(same, results, i, 0) == rerank::first_alike(same, results, j, 0) <==> alike(
            same,
            results,
            i,
            j,
        ),
        is_first(same, results, i) <==> rerank::first_alike(same, results, i, 0) == i,
{
    lemma_group(same, results, i, 0);
    lemma_group(same, results, j, 0);
    let a = rerank::first_alike(same, results, i, 0);
    let b = rerank::first_alike(same, results, j, 0);
    if a == b {
        assert(alike(same, results, i, a));
        assert(alike(same, results, b, j));
    }
    if alike(same, results, i, j) {
        assert(alike(same, results, a, i));
        assert(alike(same, results, a, j));
        assert(alike(same, results, j, b));
        assert(alike(same, results, a, b));
        assert(alike(same, results, b, a));
    }
}

proof fn lemma_members<K, E: Fn(&K, &K) -> bool>(
    same: E,
    results: Seq<GroupedResult<K>>,
    i: int,
    upto: nat,
    p: spec_fn(int) -> bool,
)
    requires
        is_equivalence(same, results),
        0 <= i < results.len(),
        upto <= results.len(),
        forall|j: int| 0 <= j < results.len() ==> #[trigger] p(j) == alike(same, results, j, i),
    ensures
        rerank::members(
            rerank::grouped_view(same, results),
            rerank::first_alike(same, results, i, 0),
            upto,
        ) == numbers(upto).filter(p).len(),
    decreases upto,
{
    reveal(Seq::filter);
    if upto > 0 {
        lemma_members(same, results, i, (upto - 1) as nat, p);
        assert(numbers(upto).drop_last() =~= numbers((upto - 1) as nat));
        lemma_same_group(same, results, upto - 1, i);
        assert(p(upto - 1) == alike(same, results, upto - 1, i));
    }
}

/// The first result of a group that has results is the one after which it is named.
proof fn lemma_leader<K, E: Fn(&K, &K) -> bool>(same: E, results: Seq<GroupedResult<K>>, g: int, upto: nat)
    requires
        is_equivalence(same, results),
        is_first(same, results, g),
        upto <= results.len(),
    ensures
        rerank::leader(rerank::grouped_view(same, results), g, upto) == (if g < upto {
            Some(g)
        } else {
            None
        }),
    decreases upto,
{
    lemma_same_group(same, results, g, g);
    if upto > 0 {
        lemma_leader(same, results, g, (upto - 1) as nat);
        lemma_group(same, results, upto - 1, 0);
    }
}

proof fn lemma_leaders<K, E: Fn(&K, &K) -> bool>(same: E, results: Seq<GroupedResult<K>>, upto: nat)
    requires
        is_equivalence(same, results),
        upto <= results.len() <= u64::MAX,
    ensures
        ({
            let all = rerank::leaders(rerank::grouped_view(same, results), upto);
            &&& order::ids_differ(all)
            &&& forall|k: int|
                0 <= k < all.len() ==> (#[trigger] all[k]).0 < upto && is_first(same, results, all[k].0 as int)
                    && all[k].1 == results[all[k].0 as int].score
            &&& forall|l: int| #[trigger]
                is_first(same, results, l) && l < upto ==> all.contains((l as u64, results[l].score))
        }),
    decreases upto,
{
    let view = rerank::grouped_view(same, results);
    let all = rerank::leaders(view, upto);
    if upto > 0 {
        let last = upto - 1;
        let before = rerank::leaders(view, last as nat);
        lemma_leaders(same, results, last as nat);
        lemma_group(same, results, last, 0);
        lemma_same_group(same, results, last, last);
        let g = rerank::first_alike(same, results, last, 0);
        lemma_leader(same, results, g, last as nat);
        assert forall|k: int| 0 <= k < all.len() implies (#[trigger] all[k]).0 < upto && is_first(
            same,
            results,
            all[k].0 as int,
        ) && all[k].1 == results[all[k].0 as int].score by {
            if k < before.len() {
                assert(before[k].0 < last);
            }
        }
        assert forall|i: int, j: int| 0 <= i < j < all.len() implies (#[trigger] all[i]).0 != (#[trigger] all[j]).0 by {
            assert(before[i].0 < last);
            if j < before.len() {
                assert(before[i].0 != before[j].0);
            }
        }
        assert forall|l: int| #[trigger] is_first(same, results, l) && l < upto implies all.contains(
            (l as u64, results[l].score),
        ) by {
            if l < last {
                assert(before.contains((l as u64, results[l].score)));
                let k = choose|k: int| 0 <= k < before.len() && before[k] == (l as u64, results[l].score);
                assert(all[k] == before[k]);
            } else {
                assert(all[before.len() as int] == (l as u64, results[l].score));
            }
        }
    }
}

/// Grouping keeps, in their order, the first results of each of the best groups: those
/// groups whose first results score best.
pub proof fn law_groups_are_the_best<K, E: Fn(&K, &K) -> bool>(
    same: E,
    results: Seq<GroupedResult<K>>,
    per_group: int,
    total_groups: int,
)
    requires
        is_equivalence(same, results),
        results.len() <= u64::MAX,
        per_group >= 0,
        total_groups >= 0,
    ensures
        ({
            let list = rerank::grouped(
                rerank::grouped_view(same, results),
                per_group,
                total_groups,
                results.len(),
            );
            exists|kept: Seq<int>| #[trigger]
                are_best_firsts(same, results, total_groups, kept) && {
                    &&& forall|q: int|
                        0 <= q < list.len() ==> is_wanted(same, results, per_group, kept, (#[trigger] list[q]).at)
                            && list[q].id == results[list[q].at].id && list[q].score == results[list[q].at].score
                    &&& forall|p: int, q: int|
                        0 <= p < q < list.len() ==> (#[trigger] list[p]).at < (#[trigger] list[q]).at
                    &&& forall|i: int| #[trigger]
                        is_wanted(same, results, per_group, kept, i) ==> exists|q: int|
                            0 <= q < list.len() && (#[trigger] list[q]).at == i
                }
        }),
{
    let view = rerank::grouped_view(same, results);
    let n = results.len();
    let firsts = rerank::leaders(view, n);
    let all = order::ranking(firsts);
    let best = rerank::kept_groups(view, total_groups);
    let kept = best.map_values(|item: (u64, Score)| item.0 as int);
    lemma_leaders(same, results, n);
    order::law_ranking(firsts);
    order::law_ranking_keeps_ids_apart(firsts);
    assert forall|k: int| 0 <= k < all.len() implies is_first(same, results, (#[trigger] all[k]).0 as int) && all[k].1
        == results[all[k].0 as int].score by {
        assert(all.contains(all[k]));
        let x = choose|x: int| 0 <= x < firsts.len() && firsts[x] == all[k];
        assert(is_first(same, results, firsts[x].0 as int));
    }
    assert(are_best_firsts(same, results, total_groups, kept)) by {
        assert forall|k: int| 0 <= k < kept.len() implies is_first(same, results, #[trigger] kept[k]) by {
            assert(all[k] == best[k]);
        }
        assert forall|i: int, j: int| 0 <= i < j < kept.len() implies leads(
            results,
            #[trigger] kept[i],
            #[trigger] kept[j],
        ) by {
            assert(order::ranks_before(all[i], all[j]));
            assert(all[i].0 != all[j].0);
        }
        assert forall|l: int| #[trigger] is_first(same, results, l) && !kept.contains(l) implies kept.len()
            == total_groups && forall|k: int| 0 <= k < kept.len() ==> leads(results, #[trigger] kept[k], l) by {
            assert(firsts.contains((l as u64, results[l].score)));
            assert(all.contains((l as u64, results[l].score)));
            let x = choose|x: int| 0 <= x < all.len() && all[x] == (l as u64, results[l].score);
            if x < kept.len() {
                assert(kept[x] == l);
            }
            assert forall|k: int| 0 <= k < kept.len() implies leads(results, #[trigger] kept[k], l) by {
                assert(order::ranks_before(all[k], all[x]));
                assert(all[k].0 != all[x].0);
            }
        }
    }
    lemma_wanted(same, results, per_group, total_groups, kept, n);
}

proof fn lemma_wanted<K, E: Fn(&K, &K) -> bool>(
    same: E,
    results: Seq<GroupedResult<K>>,
    per_group: int,
    total_groups: int,
    kept: Seq<int>,
    upto: nat,
)
    requires
        is_equivalence(same, results),
        upto <= results.len() <= u64::MAX,
        are_best_firsts(same, results, total_groups, kept),
        kept == rerank::kept_groups(rerank::grouped_view(same, results), total_groups).map_values(
            |item: (u64, Score)| item.0 as int,
        ),
    ensures
        ({
            let list = rerank::grouped(rerank::grouped_view(same, results), per_group, total_groups, upto);
            &&& forall|q: int|
                0 <= q < list.len() ==> (#[trigger] list[q]).at < upto && is_wanted(
                    same,
                    results,
                    per_group,
                    kept,
                    list[q].at,
                ) && list[q].id == results[list[q].at].id && list[q].score == results[list[q].at].score
            &&& forall|p: int, q: int| 0 <= p < q < list.len() ==> (#[trigger] list[p]).at < (#[trigger] list[q]).at
            &&& forall|i: int| #[trigger]
                is_wanted(same, results, per_group, kept, i) && i < upto ==> exists|q: int|
                    0 <= q < list.len() && (#[trigger] list[q]).at == i
        }),
    decreases upto,
{
    let view = rerank::grouped_view(same, results);
    let list = rerank::grouped(view, per_group, total_groups, upto);
    if upto > 0 {
        let last = upto - 1;
        let before = rerank::grouped(view, per_group, total_groups, last as nat);
        lemma_wanted(same, results, per_group, total_groups, kept, last as nat);
        let g = rerank::first_alike(same, results, last, 0);
        lemma_group(same, results, last, 0);
        lemma_leader(same, results, g, results.len());
        lemma_members(same, results, last, last as nat, |j: int| alike(same, results, j, last));
        let best = rerank::kept_groups(view, total_groups);
        assert(rerank::is_kept(view, total_groups, g) <==> exists|k: int|
            0 <= k < kept.len() && alike(same, results, #[trigger] kept[k], last)) by {
            if rerank::is_kept(view, total_groups, g) {
                let k = choose|k: int|
                    0 <= k < best.len() && Some((#[trigger] best[k]).0 as int) == rerank::leader(view, g, view.len());
                assert(kept[k] == g);
            }
            if exists|k: int| 0 <= k < kept.len() && alike(same, results, #[trigger] kept[k], last) {
                let k = choose|k: int| 0 <= k < kept.len() && alike(same, results, #[trigger] kept[k], last);
                assert(is_first(same, results, kept[k]));
                lemma_same_group(same, results, kept[k], last);
                assert(kept[k] == g);
                assert(Some(best[k].0 as int) == rerank::leader(view, g, view.len()));
            }
        }
        assert(is_wanted(same, results, per_group, kept, last) <==> list.len() > before.len());
        assert forall|i: int| #[trigger] is_wanted(same, results, per_group, kept, i) && i < upto implies exists|q: int|
            0 <= q < list.len() && (#[trigger] list[q]).at == i by {
            if i < last {
                let q = choose|q: int| 0 <= q < before.len() && (#[trigger] before[q]).at == i;
                assert(list[q].at == i);
            } else {
                assert(list[before.len() as int].at == i);
            }
        }
        assert forall|q: int| 0 <= q < list.len() implies (#[trigger] list[q]).at < upto && is_wanted(
            same,
            results,
            per_group,
            kept,
            list[q].at,
        ) && list[q].id == results[list[q].at].id && list[q].score == results[list[q].at].score by {
            if q < before.len() {
                assert(before[q].at < last);
            }
        }
        assert forall|p: int, q: int| 0 <= p < q < list.len() implies (#[trigger] list[p]).at < (
        #[trigger] list[q]).at by {
            assert(before[p].at < last);
            if q < before.len() {
                assert(before[p].at < before[q].at);
            }
        }
    }
}

} // verus!
