//! Sorting of integer pairs, and the rankings built on it.

use vstd::prelude::*;
use rayon::slice::ParallelSliceMut;
use crate::score;
use crate::score::Score;

verus! {

/// The order of pairs: by the first component, then by the second.
pub open spec fn pair_leq(a: (i64, u64), b: (i64, u64)) -> bool {
    a.0 < b.0 || (a.0 == b.0 && a.1 <= b.1)
}

/// Whether the pairs stand in ascending order.
pub open spec fn ascending(s: Seq<(i64, u64)>) -> bool {
    forall|i: int, j: int| 0 <= i <= j < s.len() ==> pair_leq(#[trigger] s[i], #[trigger] s[j])
}

/// The pairs in ascending order.
pub open spec fn sorted_pairs(s: Seq<(i64, u64)>) -> Seq<(i64, u64)> {
    s.sort_by(|a: (i64, u64), b: (i64, u64)| pair_leq(a, b))
}

/// `<[T]>::sort_unstable` of std, on pairs of integers: afterwards the vector
/// holds the same pairs, as often as before, in ascending order.
#[verifier::external_body]
fn sort_unstable_pairs(items: &mut Vec<(i64, u64)>)
    ensures
        final(items)@.to_multiset() == old(items)@.to_multiset(),
        ascending(final(items)@),
{
    items.sort_unstable();
}

/// `rayon::slice::ParallelSliceMut::par_sort_unstable`, on pairs of integers:
/// afterwards the vector holds the same pairs, as often as before, in ascending
/// order.
#[verifier::external_body]
fn par_sort_unstable_pairs(items: &mut Vec<(i64, u64)>)
    ensures
        final(items)@.to_multiset() == old(items)@.to_multiset(),
        ascending(final(items)@),
{
    items.par_sort_unstable();
}

proof fn lemma_pair_order_is_total()
    ensures
        vstd::relations::total_ordering(|a: (i64, u64), b: (i64, u64)| pair_leq(a, b)),
{
    let leq = |a: (i64, u64), b: (i64, u64)| pair_leq(a, b);
    assert forall|x: (i64, u64), y: (i64, u64)| #[trigger] leq(x, y) && #[trigger] leq(y, x) implies x == y by {
        assert(x.0 == y.0 && x.1 == y.1);
    }
}

/// The ascending arrangement of pairs is the only one: whatever holds the same
/// pairs in ascending order equals it.
pub proof fn law_sorted_pairs_is_unique(s: Seq<(i64, u64)>, out: Seq<(i64, u64)>)
    requires
        out.to_multiset() == s.to_multiset(),
        ascending(out),
    ensures
        out == sorted_pairs(s),
{
    let leq = |a: (i64, u64), b: (i64, u64)| pair_leq(a, b);
    lemma_pair_order_is_total();
    s.lemma_sort_by_ensures(leq);
    assert(vstd::relations::sorted_by(out, leq)) by {
        assert forall|i: int, j: int| 0 <= i < j < out.len() implies #[trigger] leq(out[i], out[j]) by {}
    }
    vstd::seq_lib::lemma_sorted_unique(out, sorted_pairs(s), leq);
}

/// Sorting neither adds nor drops a pair, and leaves them in ascending order.
pub proof fn law_sorted_pairs(s: Seq<(i64, u64)>)
    ensures
        sorted_pairs(s).len() == s.len(),
        sorted_pairs(s).to_multiset() == s.to_multiset(),
        ascending(sorted_pairs(s)),
        forall|x: (i64, u64)| #[trigger] sorted_pairs(s).contains(x) <==> s.contains(x),
{
    broadcast use vstd::seq_lib::group_to_multiset_ensures;
    let leq = |a: (i64, u64), b: (i64, u64)| pair_leq(a, b);
    lemma_pair_order_is_total();
    s.lemma_sort_by_ensures(leq);
    let r = sorted_pairs(s);
    assert(r.len() == r.to_multiset().len());
    assert(s.len() == s.to_multiset().len());
    assert forall|i: int, j: int| 0 <= i <= j < r.len() implies pair_leq(#[trigger] r[i], #[trigger] r[j]) by {
        if i < j {
            assert(leq(r[i], r[j]));
        }
    }
    assert forall|x: (i64, u64)| #[trigger] r.contains(x) <==> s.contains(x) by {
        assert(r.contains(x) <==> r.to_multiset().count(x) > 0);
        assert(s.contains(x) <==> s.to_multiset().count(x) > 0);
    }
}

/// Puts pairs in ascending order.
pub fn sort_pairs(items: &mut Vec<(i64, u64)>)
    ensures
        final(items)@ == sorted_pairs(old(items)@),
{
    sort_unstable_pairs(items);
    proof {
        law_sorted_pairs_is_unique(old(items)@, items@);
    }
}

/// Puts pairs in ascending order, on the threads of the global pool.
pub fn par_sort_pairs(items: &mut Vec<(i64, u64)>)
    ensures
        final(items)@ == sorted_pairs(old(items)@),
{
    par_sort_unstable_pairs(items);
    proof {
        law_sorted_pairs_is_unique(old(items)@, items@);
    }
}

/// An item with a score, as the pair by which it is ranked: the better score
/// first, the smaller id first among equal scores.
pub open spec fn rank_pair(item: (u64, Score)) -> (i64, u64) {
    ((-score::total_key(item.1)) as i64, item.0)
}

/// The item that a ranking pair stands for.
pub open spec fn ranked_item(pair: (i64, u64)) -> (u64, Score) {
    (pair.1, score::at_total_key(-pair.0))
}

/// The items ranked by descending score, by ascending id among equal scores.
pub open spec fn ranking(items: Seq<(u64, Score)>) -> Seq<(u64, Score)> {
    sorted_pairs(items.map_values(|item: (u64, Score)| rank_pair(item))).map_values(
        |pair: (i64, u64)| ranked_item(pair),
    )
}

/// `a` stands before `b` in a ranking, or is `b`.
pub open spec fn ranks_before(a: (u64, Score), b: (u64, Score)) -> bool {
    score::total_key(a.1) > score::total_key(b.1) || (a.1 == b.1 && a.0 <= b.0)
}

/// A ranking holds exactly the items that were ranked, each before all that
/// score less, and before all of the same score that have a greater id.
pub proof fn law_ranking(items: Seq<(u64, Score)>)
    ensures
        ranking(items).len() == items.len(),
        forall|x: (u64, Score)| #[trigger] ranking(items).contains(x) <==> items.contains(x),
        forall|i: int, j: int|
            0 <= i <= j < items.len() ==> ranks_before(#[trigger] ranking(items)[i], #[trigger] ranking(items)[j]),
{
    let keys = items.map_values(|item: (u64, Score)| rank_pair(item));
    let sorted = sorted_pairs(keys);
    let out = ranking(items);
    law_sorted_pairs(keys);
    assert forall|i: int|
        #![trigger out[i]]
        0 <= i < out.len() implies exists|k: int|
        0 <= k < items.len() && #[trigger] items[k] == out[i] && sorted[i] == rank_pair(items[k]) by {
        assert(sorted.contains(sorted[i]));
        let k = choose|k: int| 0 <= k < keys.len() && keys[k] == sorted[i];
        score::law_total_key_is_injective(items[k].1);
        assert(items[k] == out[i]);
    }
    assert forall|x: (u64, Score)| items.contains(x) implies #[trigger] out.contains(x) by {
        let k = choose|k: int| 0 <= k < items.len() && items[k] == x;
        assert(keys[k] == rank_pair(x));
        assert(sorted.contains(keys[k]));
        let i = choose|i: int| 0 <= i < sorted.len() && sorted[i] == keys[k];
        score::law_total_key_is_injective(x.1);
        assert(out[i] == x);
    }
    assert forall|i: int, j: int| 0 <= i <= j < items.len() implies ranks_before(#[trigger] out[i], #[trigger] out[j]) by {
        let a = choose|k: int| 0 <= k < items.len() && #[trigger] items[k] == out[i] && sorted[i] == rank_pair(items[k]);
        let b = choose|k: int| 0 <= k < items.len() && #[trigger] items[k] == out[j] && sorted[j] == rank_pair(items[k]);
        assert(pair_leq(sorted[i], sorted[j]));
        score::law_total_key_is_injective(items[a].1);
        score::law_total_key_is_injective(items[b].1);
    }
}

/// Whether no two items have the same id.
pub open spec fn ids_differ(items: Seq<(u64, Score)>) -> bool {
    forall|i: int, j: int| 0 <= i < j < items.len() ==> (#[trigger] items[i]).0 != (#[trigger] items[j]).0
}

/// A ranking names no id twice, where the items do not.
pub proof fn law_ranking_keeps_ids_apart(items: Seq<(u64, Score)>)
    requires
        ids_differ(items),
    ensures
        ids_differ(ranking(items)),
{
    let out = ranking(items);
    law_ranking(items);
    assert(items.no_duplicates());
    items.unique_seq_to_set();
    assert(out.to_set() =~= items.to_set());
    out.lemma_no_dup_set_cardinality();
    assert forall|i: int, j: int| 0 <= i < j < out.len() implies (#[trigger] out[i]).0 != (#[trigger] out[j]).0 by {
        assert(out.contains(out[i]) && out.contains(out[j]));
        let a = choose|a: int| 0 <= a < items.len() && items[a] == out[i];
        let b = choose|b: int| 0 <= b < items.len() && items[b] == out[j];
        if a == b {
            assert(out[i] == out[j]);
        } else if a < b {
            assert(items[a].0 != items[b].0);
        } else {
            assert(items[b].0 != items[a].0);
        }
    }
}

fn rank_pairs_of(items: &[(u64, Score)]) -> (r: Vec<(i64, u64)>)
    ensures
        r@ == items@.map_values(|item: (u64, Score)| rank_pair(item)),
{
    let mut out: Vec<(i64, u64)> = Vec::with_capacity(items.len());
    let mut i: usize = 0;
    while i < items.len()
        invariant
            i <= items@.len(),
            out@ == items@.take(i as int).map_values(|item: (u64, Score)| rank_pair(item)),
        decreases items@.len() - i,
    {
        let key: i64 = -score::total_rank(items[i].1);
        out.push((key, items[i].0));
        i += 1;
    }
    assert(items@.take(i as int) =~= items@);
    out
}

fn items_of(pairs: &Vec<(i64, u64)>, limit: usize) -> (r: Vec<(u64, Score)>)
    requires
        forall|i: int| 0 <= i < pairs@.len() ==> -0x8000_0000 < #[trigger] pairs@[i].0 <= 0x8000_0000,
    ensures
        r@ == pairs@.map_values(|pair: (i64, u64)| ranked_item(pair)).take(
            if limit < pairs@.len() { limit as int } else { pairs@.len() as int },
        ),
{
    let mut out: Vec<(u64, Score)> = Vec::new();
    let mut i: usize = 0;
    while i < pairs.len() && i < limit
        invariant
            i <= pairs@.len(),
            i <= limit,
            out@.len() == i,
            forall|j: int| 0 <= j < pairs@.len() ==> -0x8000_0000 < #[trigger] pairs@[j].0 <= 0x8000_0000,
            forall|j: int| 0 <= j < i ==> #[trigger] out@[j] == ranked_item(pairs@[j]),
        decreases pairs@.len() - i,
    {
        out.push((pairs[i].1, score::at_total_rank(-pairs[i].0)));
        i += 1;
    }
    out
}

proof fn lemma_rank_keys_bounded(items: Seq<(u64, Score)>, sorted: Seq<(i64, u64)>)
    requires
        sorted == sorted_pairs(items.map_values(|item: (u64, Score)| rank_pair(item))),
    ensures
        forall|i: int| 0 <= i < sorted.len() ==> -0x8000_0000 < #[trigger] sorted[i].0 <= 0x8000_0000,
{
    let keys = items.map_values(|item: (u64, Score)| rank_pair(item));
    law_sorted_pairs(keys);
    assert forall|i: int| 0 <= i < sorted.len() implies -0x8000_0000 < #[trigger] sorted[i].0 <= 0x8000_0000 by {
        assert(sorted.contains(sorted[i]));
        let k = choose|k: int| 0 <= k < keys.len() && keys[k] == sorted[i];
        score::law_total_key_is_injective(items[k].1);
    }
}

/// The first `limit` items of the ranking; all of it where it is shorter.
pub fn rank(items: &[(u64, Score)], limit: usize) -> (r: Vec<(u64, Score)>)
    ensures
        r@ == ranking(items@).take(if limit < items@.len() { limit as int } else { items@.len() as int }),
{
    let mut pairs: Vec<(i64, u64)> = rank_pairs_of(items);
    sort_pairs(&mut pairs);
    proof {
        lemma_rank_keys_bounded(items@, pairs@);
        law_ranking(items@);
    }
    items_of(&pairs, limit)
}

/// The first `limit` items of the ranking, sorted on the threads of the global
/// pool; all of it where it is shorter.
pub fn par_rank(items: &[(u64, Score)], limit: usize) -> (r: Vec<(u64, Score)>)
    ensures
        r@ == ranking(items@).take(if limit < items@.len() { limit as int } else { items@.len() as int }),
{
    let mut pairs: Vec<(i64, u64)> = rank_pairs_of(items);
    par_sort_pairs(&mut pairs);
    proof {
        lemma_rank_keys_bounded(items@, pairs@);
        law_ranking(items@);
    }
    items_of(&pairs, limit)
}

/// Each key with its position.
pub open spec fn keyed_positions(keys: Seq<i64>) -> Seq<(i64, u64)> {
    Seq::new(keys.len(), |i: int| (keys[i], i as u64))
}

/// The positions of the keys in ascending order of the keys; positions of equal
/// keys keep their order.
pub open spec fn stable_order(keys: Seq<i64>) -> Seq<u64> {
    sorted_pairs(keyed_positions(keys)).map_values(|pair: (i64, u64)| pair.1)
}

/// A stable order names every position once, puts smaller keys first, and keeps
/// the order of equal keys.
pub proof fn law_stable_order(keys: Seq<i64>)
    requires
        keys.len() <= u64::MAX,
    ensures
        stable_order(keys).len() == keys.len(),
        forall|i: int| 0 <= i < keys.len() ==> (#[trigger] stable_order(keys)[i]) < keys.len(),
        stable_order(keys).no_duplicates(),
        forall|i: int, j: int|
            0 <= i < j < keys.len() ==> {
                let a = #[trigger] stable_order(keys)[i];
                let b = #[trigger] stable_order(keys)[j];
                keys[a as int] < keys[b as int] || (keys[a as int] == keys[b as int] && a < b)
            },
{
    let pairs = keyed_positions(keys);
    let sorted = sorted_pairs(pairs);
    let out = stable_order(keys);
    law_sorted_pairs(pairs);
    assert forall|i: int| 0 <= i < sorted.len() implies sorted[i].1 < keys.len() && (#[trigger] sorted[i]).0
        == keys[sorted[i].1 as int] by {
        assert(sorted.contains(sorted[i]));
        let k = choose|k: int| 0 <= k < pairs.len() && pairs[k] == sorted[i];
    }
    assert(pairs.no_duplicates());
    assert(sorted.no_duplicates()) by {
        broadcast use vstd::seq_lib::group_to_multiset_ensures;
        pairs.lemma_multiset_has_no_duplicates();
        assert(sorted.to_multiset() =~= pairs.to_multiset());
        sorted.lemma_multiset_has_no_duplicates_conv();
    }
    assert forall|i: int, j: int| 0 <= i < j < keys.len() implies {
        let a = #[trigger] out[i];
        let b = #[trigger] out[j];
        keys[a as int] < keys[b as int] || (keys[a as int] == keys[b as int] && a < b)
    } by {
        assert(pair_leq(sorted[i], sorted[j]));
        assert(sorted[i] != sorted[j]);
    }
}

/// The positions of the keys in ascending order of the keys; positions of equal
/// keys keep their order.
pub fn stable_order_of(keys: &[i64]) -> (r: Vec<usize>)
    ensures
        r@.len() == keys@.len(),
        forall|i: int| 0 <= i < r@.len() ==> #[trigger] r@[i] == stable_order(keys@)[i],
{
    let mut pairs: Vec<(i64, u64)> = Vec::with_capacity(keys.len());
    let mut i: usize = 0;
    while i < keys.len()
        invariant
            i <= keys@.len(),
            pairs@ == keyed_positions(keys@).take(i as int),
        decreases keys@.len() - i,
    {
        pairs.push((keys[i], i as u64));
        i += 1;
    }
    assert(pairs@ =~= keyed_positions(keys@));
    sort_pairs(&mut pairs);
    proof {
        law_stable_order(keys@);
        law_sorted_pairs(keyed_positions(keys@));
    }
    let mut out: Vec<usize> = Vec::with_capacity(pairs.len());
    let mut k: usize = 0;
    while k < pairs.len()
        invariant
            k <= pairs@.len(),
            pairs@.len() == keys@.len(),
            keys@.len() <= usize::MAX,
            pairs@ == sorted_pairs(keyed_positions(keys@)),
            out@.len() == k,
            forall|j: int| 0 <= j < keys@.len() ==> (#[trigger] stable_order(keys@)[j]) < keys@.len(),
            forall|j: int| 0 <= j < k ==> #[trigger] out@[j] == stable_order(keys@)[j],
        decreases pairs@.len() - k,
    {
        assert(stable_order(keys@)[k as int] == pairs@[k as int].1);
        out.push(pairs[k].1 as usize);
        k += 1;
    }
    out
}

} // verus!
