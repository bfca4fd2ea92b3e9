//! What it means to be the best of some items.

use vstd::prelude::*;
use crate::laws::sums::beats;
use crate::order;
use crate::score::Score;

verus! {

/// Whether a list holds the best of items: as many as asked for or all, the best first,
/// and every item that is left out is beaten by all that are listed.
pub open spec fn are_best_of(items: Seq<(u64, Score)>, limit: int, out: Seq<(u64, Score)>) -> bool {
    &&& out.len() == if limit < items.len() {
        limit
    } else {
        items.len() as int
    }
    &&& forall|i: int| 0 <= i < out.len() ==> items.contains(#[trigger] out[i])
    &&& forall|i: int, j: int| 0 <= i < j < out.len() ==> beats(#[trigger] out[i], #[trigger] out[j])
    &&& forall|k: int|
        0 <= k < items.len() && !out.contains(#[trigger] items[k]) ==> forall|i: int|
            0 <= i < out.len() ==> beats(#[trigger] out[i], items[k])
}

/// The beginning of a ranking holds the best of its items.
pub proof fn law_rankings_begin_with_the_best(items: Seq<(u64, Score)>, limit: int)
    requires
        limit >= 0,
        order::ids_differ(items),
    ensures
        are_best_of(
            items,
            limit,
            order::ranking(items).take(
                if limit < items.len() {
                    limit
                } else {
                    items.len() as int
                },
            ),
        ),
{
    let all = order::ranking(items);
    let out = all.take(
        if limit < items.len() {
            limit
        } else {
            items.len() as int
        },
    );
    order::law_ranking(items);
    order::law_ranking_keeps_ids_apart(items);
    assert forall|i: int, j: int| 0 <= i < j < all.len() implies beats(#[trigger] all[i], #[trigger] all[j]) by {
        assert(order::ranks_before(all[i], all[j]));
        assert(all[i].0 != all[j].0);
    }
    assert forall|i: int| 0 <= i < out.len() implies items.contains(#[trigger] out[i]) by {
        assert(all.contains(all[i]));
    }
    assert forall|k: int| 0 <= k < items.len() && !out.contains(#[trigger] items[k]) implies forall|i: int|
        0 <= i < out.len() ==> beats(#[trigger] out[i], items[k]) by {
        assert(all.contains(items[k]));
        let x = choose|x: int| 0 <= x < all.len() && all[x] == items[k];
        if x < out.len() {
            assert(out[x] == items[k]);
        }
    }
}

proof fn lemma_filter_keeps_apart(items: Seq<(u64, Score)>, p: spec_fn((u64, Score)) -> bool)
    requires
        items.no_duplicates(),
    ensures
        items.filter(p).no_duplicates(),
    decreases items.len(),
{
    reveal(Seq::filter);
    if items.len() > 0 {
        let rest = items.drop_last();
        lemma_filter_keeps_apart(rest, p);
        if p(items.last()) {
            let before = rest.filter(p);
            assert forall|i: int, j: int| 0 <= i < items.filter(p).len() && 0 <= j < items.filter(p).len() && i
                != j implies items.filter(p)[i] != items.filter(p)[j] by {
                if before.contains(items.last()) {
                    rest.lemma_filter_contains_rev(p, items.last());
                    let k = choose|k: int| 0 <= k < rest.len() && rest[k] == items.last();
                    assert(items[k] == items[items.len() - 1]);
                }
                if i < before.len() && j < before.len() {
                } else if i < before.len() {
                    assert(before.contains(before[i]));
                } else {
                    assert(before.contains(before[j]));
                }
            }
        }
    }
}

/// As many items beat one that is ranked as stand before it.
pub proof fn law_rank_is_the_number_of_better_items(items: Seq<(u64, Score)>, k: int)
    requires
        order::ids_differ(items),
        0 <= k < items.len(),
    ensures
        items.filter(|other: (u64, Score)| beats(other, order::ranking(items)[k])).len() == k,
{
    let all = order::ranking(items);
    let p = |other: (u64, Score)| beats(other, all[k]);
    order::law_ranking(items);
    order::law_ranking_keeps_ids_apart(items);
    assert(items.no_duplicates());
    assert(all.no_duplicates());
    lemma_filter_keeps_apart(items, p);
    let better = items.filter(p);
    let first = all.take(k);
    assert(first.no_duplicates());
    assert(better.to_set() =~= first.to_set()) by {
        assert forall|x: (u64, Score)| #[trigger] better.to_set().contains(x) implies first.to_set().contains(x) by {
            assert(better.contains(x));
            items.lemma_filter_contains_rev(p, x);
            let i = choose|i: int| 0 <= i < better.len() && better[i] == x;
            items.lemma_filter_pred(p, i);
            assert(all.contains(x));
            let y = choose|y: int| 0 <= y < all.len() && all[y] == x;
            if y >= k {
                assert(order::ranks_before(all[k], all[y]));
            }
            assert(first[y] == x);
        }
        assert forall|x: (u64, Score)| #[trigger] first.to_set().contains(x) implies better.to_set().contains(x) by {
            assert(first.contains(x));
            let y = choose|y: int| 0 <= y < first.len() && first[y] == x;
            assert(all[y] == x);
            assert(order::ranks_before(all[y], all[k]));
            assert(all[y].0 != all[k].0);
            assert(all.contains(x));
            let i = choose|i: int| 0 <= i < items.len() && items[i] == x;
            items.lemma_filter_contains(p, i);
            assert(better.contains(x));
        }
    }
    better.unique_seq_to_set();
    first.unique_seq_to_set();
}

} // verus!
