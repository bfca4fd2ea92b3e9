//! Codebooks from samples: centroids by k-means, and levels for what is left of
//! a vector beside its centroid.

use vstd::prelude::*;
use vstd::arithmetic::power2::pow2;
use crate::arith;
use crate::config;
use crate::config::{IndexConfig, IndexError};
use crate::engine::index::MultiVectorIndex;
use crate::engine::state::State;
use crate::muvera;
use crate::order;
use crate::score;
use crate::score::Score;

verus! {

/// The distances of a vector from centers.
pub open spec fn distances<D: Fn(&[Score], &[Score]) -> Score>(
    distance: D,
    v: Seq<Score>,
    centers: Seq<Seq<Score>>,
) -> Seq<Score> {
    Seq::new(centers.len(), |c: int| arith::measure(distance, v, centers[c]))
}

/// The first of the centers that are nearest to a vector.
pub open spec fn nearest_center<D: Fn(&[Score], &[Score]) -> Score>(
    distance: D,
    v: Seq<Score>,
    centers: Seq<Seq<Score>>,
) -> int {
    choose|at: int| score::is_first_least(distances(distance, v, centers), at)
}

proof fn lemma_first_least(values: Seq<Score>, at: int)
    requires
        score::is_first_least(values, at),
    ensures
        (choose|k: int| score::is_first_least(values, k)) == at,
{
    let other = choose|k: int| score::is_first_least(values, k);
    if other < at {
        assert(score::total_key(values[at]) < score::total_key(values[other]));
    }
    if at < other {
        assert(score::total_key(values[other]) < score::total_key(values[at]));
    }
}

/// The first of the centroids that are nearest to a vector.
pub fn nearest<D: Fn(&[Score], &[Score]) -> Score>(vector: &[Score], centroids: &[Vec<Score>], distance: &D) -> (r: usize)
    requires
        arith::is_measure(*distance),
        centroids@.len() > 0,
    ensures
        r < centroids@.len(),
        r == nearest_center(*distance, vector@, arith::rows(centroids@)),
{
    let ghost all = distances(*distance, vector@, arith::rows(centroids@));
    let mut out: Vec<Score> = Vec::with_capacity(centroids.len());
    let mut c: usize = 0;
    while c < centroids.len()
        invariant
            arith::is_measure(*distance),
            c <= centroids@.len(),
            all == distances(*distance, vector@, arith::rows(centroids@)),
            out@ == all.take(c as int),
        decreases centroids@.len() - c,
    {
        out.push(arith::apply_measure(distance, vector, centroids[c].as_slice()));
        c += 1;
        assert(out@ =~= all.take(c as int));
    }
    assert(out@ =~= all);
    let at: usize = score::first_least(out.as_slice());
    proof {
        lemma_first_least(all, at as int);
    }
    at
}

/// Whether `f` takes any vector and gives one of the same length, the same for
/// vectors that hold the same numbers.
pub open spec fn is_normalizing<N: Fn(&[Score]) -> Vec<Score>>(f: N) -> bool {
    &&& forall|a: &[Score]| #[trigger] f.requires((a,))
    &&& forall|a: &[Score], r: Vec<Score>| #[trigger] f.ensures((a,), r) ==> r@.len() == a@.len()
    &&& forall|a: &[Score], b: &[Score], r: Vec<Score>, s: Vec<Score>|
        #[trigger] f.ensures((a,), r) && #[trigger] f.ensures((b,), s) && a@ == b@ ==> r@ == s@
}

/// Whether `r` is the normalized vector.
pub open spec fn normalizes<N: Fn(&[Score]) -> Vec<Score>>(f: N, v: Seq<Score>, r: Seq<Score>) -> bool {
    exists|a: &[Score], s: Vec<Score>| a@ == v && s@ == r && #[trigger] f.ensures((a,), s)
}

/// The normalized vector.
pub open spec fn normalized<N: Fn(&[Score]) -> Vec<Score>>(f: N, v: Seq<Score>) -> Seq<Score> {
    choose|r: Seq<Score>| normalizes(f, v, r)
}

fn normalize_one<N: Fn(&[Score]) -> Vec<Score>>(f: &N, v: &[Score]) -> (r: Vec<Score>)
    requires
        is_normalizing(*f),
    ensures
        r@ == normalized(*f, v@),
        r@.len() == v@.len(),
{
    let r: Vec<Score> = f(v);
    proof {
        assert(normalizes(*f, v@, r@));
        let s = normalized(*f, v@);
        assert(normalizes(*f, v@, s));
    }
    r
}

/// Every row normalized.
pub fn normalize_all<N: Fn(&[Score]) -> Vec<Score>>(f: &N, rows: &[Vec<Score>]) -> (r: Vec<Vec<Score>>)
    requires
        is_normalizing(*f),
    ensures
        arith::rows(r@) == arith::rows(rows@).map_values(|v: Seq<Score>| normalized(*f, v)),
        r@.len() == rows@.len(),
        forall|i: int| 0 <= i < r@.len() ==> (#[trigger] r@[i])@.len() == rows@[i]@.len(),
{
    let mut out: Vec<Vec<Score>> = Vec::with_capacity(rows.len());
    let mut i: usize = 0;
    while i < rows.len()
        invariant
            is_normalizing(*f),
            i <= rows@.len(),
            out@.len() == i,
            forall|k: int|
                0 <= k < i ==> (#[trigger] out@[k])@ == normalized(*f, rows@[k]@) && out@[k]@.len() == rows@[k]@.len(),
        decreases rows@.len() - i,
    {
        out.push(normalize_one(f, rows[i].as_slice()));
        i += 1;
    }
    assert(arith::rows(out@) =~= arith::rows(rows@).map_values(|v: Seq<Score>| normalized(*f, v)));
    out
}

/// The center that each sample is nearest to.
pub open spec fn assignment<D: Fn(&[Score], &[Score]) -> Score>(
    distance: D,
    samples: Seq<Seq<Score>>,
    centers: Seq<Seq<Score>>,
) -> Seq<usize> {
    samples.map_values(|v: Seq<Score>| nearest_center(distance, v, centers) as usize)
}

/// The centers after one round: each that samples are nearest to becomes their
/// normalized mean; the others stay.
pub open spec fn moved_centers<N, D, A, V>(
    normalize: N,
    distance: D,
    add: A,
    divide: V,
    samples: Seq<Seq<Score>>,
    centers: Seq<Seq<Score>>,
    dimension: nat,
) -> Seq<Seq<Score>> where
    N: Fn(&[Score]) -> Vec<Score>,
    D: Fn(&[Score], &[Score]) -> Score,
    A: Fn(Score, Score) -> Score,
    V: Fn(Score, usize) -> Score,
 {
    let near = assignment(distance, samples, centers);
    Seq::new(
        centers.len(),
        |c: int|
            {
                let n = muvera::bucket_count(near, c);
                if n > 0 {
                    normalized(
                        normalize,
                        muvera::averages(divide, muvera::bucket_sum(add, samples, near, c, dimension), n as usize),
                    )
                } else {
                    centers[c]
                }
            },
    )
}

/// The centers after so many rounds.
pub open spec fn centers_after<N, D, A, V>(
    normalize: N,
    distance: D,
    add: A,
    divide: V,
    samples: Seq<Seq<Score>>,
    centers: Seq<Seq<Score>>,
    dimension: nat,
    rounds: nat,
) -> Seq<Seq<Score>> where
    N: Fn(&[Score]) -> Vec<Score>,
    D: Fn(&[Score], &[Score]) -> Score,
    A: Fn(Score, Score) -> Score,
    V: Fn(Score, usize) -> Score,

    decreases rounds,
{
    if rounds == 0 {
        centers
    } else {
        moved_centers(
            normalize,
            distance,
            add,
            divide,
            samples,
            centers_after(normalize, distance, add, divide, samples, centers, dimension, (rounds - 1) as nat),
            dimension,
        )
    }
}

/// The samples with which the centers start: evenly spread over all.
pub open spec fn seeds(samples: Seq<Seq<Score>>, centroids: nat) -> Seq<Seq<Score>> {
    Seq::new(centroids, |i: int| samples[i * samples.len() as int / centroids as int])
}

fn seed_centers(samples: &[Vec<Score>], centroids: usize) -> (r: Vec<Vec<Score>>)
    requires
        0 < centroids <= samples@.len(),
        centroids * samples@.len() <= usize::MAX,
    ensures
        arith::rows(r@) == seeds(arith::rows(samples@), centroids as nat),
        r@.len() == centroids,
{
    let ghost rows = arith::rows(samples@);
    let mut out: Vec<Vec<Score>> = Vec::with_capacity(centroids);
    let mut i: usize = 0;
    while i < centroids
        invariant
            0 < centroids <= samples@.len(),
            centroids * samples@.len() <= usize::MAX,
            rows == arith::rows(samples@),
            i <= centroids,
            out@.len() == i,
            forall|k: int| 0 <= k < i ==> (#[trigger] out@[k])@ == seeds(rows, centroids as nat)[k],
        decreases centroids - i,
    {
        proof {
            let n = samples@.len() as int;
            let c = centroids as int;
            assert(i * n <= c * n) by (nonlinear_arith)
                requires
                    i <= c,
                    n >= 0,
            ;
            assert(i * n / c < n) by (nonlinear_arith)
                requires
                    0 <= i < c,
                    n > 0,
            ;
            assert(0 <= i * n) by (nonlinear_arith)
                requires
                    0 <= i,
                    n > 0,
            ;
        }
        let at: usize = i * samples.len() / centroids;
        let row: Vec<Score> = samples[at].clone();
        assert(row@ =~= rows[at as int]);
        out.push(row);
        i += 1;
    }
    assert(arith::rows(out@) =~= seeds(rows, centroids as nat));
    out
}

fn move_centers<N, D, A, V>(
    normalize: &N,
    distance: &D,
    add: &A,
    divide: &V,
    samples: &[Vec<Score>],
    centers: &Vec<Vec<Score>>,
    dimension: usize,
) -> (r: Vec<Vec<Score>>) where
    N: Fn(&[Score]) -> Vec<Score>,
    D: Fn(&[Score], &[Score]) -> Score,
    A: Fn(Score, Score) -> Score,
    V: Fn(Score, usize) -> Score,

    requires
        is_normalizing(*normalize),
        arith::is_measure(*distance),
        arith::is_binary(*add),
        arith::is_scaling(*divide),
        centers@.len() > 0,
        forall|i: int| 0 <= i < samples@.len() ==> (#[trigger] samples@[i])@.len() == dimension,
        forall|i: int| 0 <= i < centers@.len() ==> (#[trigger] centers@[i])@.len() == dimension,
    ensures
        arith::rows(r@) == moved_centers(
            *normalize,
            *distance,
            *add,
            *divide,
            arith::rows(samples@),
            arith::rows(centers@),
            dimension as nat,
        ),
        r@.len() == centers@.len(),
        forall|i: int| 0 <= i < r@.len() ==> (#[trigger] r@[i])@.len() == dimension,
{
    let ghost rows = arith::rows(samples@);
    let ghost middles = arith::rows(centers@);
    let ghost near = assignment(*distance, rows, middles);
    let ghost dim = dimension as nat;
    let total: usize = centers.len();
    let mut sums: Vec<Vec<Score>> = Vec::with_capacity(total);
    let mut b: usize = 0;
    while b < total
        invariant
            b <= total,
            sums@.len() == b,
            forall|k: int| 0 <= k < b ==> (#[trigger] sums@[k])@ == Seq::new(dimension as nat, |d: int| 0u32),
        decreases total - b,
    {
        let zeros: Vec<Score> = vec![0; dimension];
        assert(zeros@ =~= Seq::new(dimension as nat, |d: int| 0u32));
        sums.push(zeros);
        b += 1;
    }
    let mut counts: Vec<usize> = vec![0; total];
    let mut i: usize = 0;
    assert(rows.take(0) =~= Seq::<Seq<Score>>::empty());
    assert(near.take(0) =~= Seq::<usize>::empty());
    while i < samples.len()
        invariant
            arith::is_measure(*distance),
            arith::is_binary(*add),
            total == centers@.len(),
            total > 0,
            dim == dimension as nat,
            forall|k: int| 0 <= k < samples@.len() ==> (#[trigger] samples@[k])@.len() == dimension,
            rows == arith::rows(samples@),
            middles == arith::rows(centers@),
            near == assignment(*distance, rows, middles),
            i <= samples@.len(),
            sums@.len() == total,
            counts@.len() == total,
            forall|k: int|
                0 <= k < total ==> (#[trigger] sums@[k])@ == muvera::bucket_sum(
                    *add,
                    rows.take(i as int),
                    near.take(i as int),
                    k,
                    dim,
                ),
            forall|k: int| 0 <= k < total ==> #[trigger] counts@[k] == muvera::bucket_count(near.take(i as int), k),
        decreases samples@.len() - i,
    {
        let sample: &Vec<Score> = &samples[i];
        let at: usize = nearest(sample.as_slice(), centers.as_slice(), distance);
        let ghost prior = sums@;
        let ghost prior_counts = counts@;
        proof {
            assert(near[i as int] == at);
            assert(rows.take(i + 1).drop_last() =~= rows.take(i as int));
            assert(near.take(i + 1).drop_last() =~= near.take(i as int));
            assert(rows.take(i + 1).last() == sample@);
            assert(near.take(i + 1).last() == at);
            muvera::lemma_bucket_sum_len(*add, rows.take(i as int), near.take(i as int), at as int, dim);
            muvera::lemma_bucket_count_bound(near.take(i as int), at as int);
            assert(sums@[at as int]@.len() == dim);
        }
        counts.set(at, counts[at] + 1);
        let fresh: Vec<Score> = muvera::add_into(add, &sums[at], sample);
        sums.set(at, fresh);
        proof {
            assert forall|k: int| 0 <= k < total implies (#[trigger] sums@[k])@ == muvera::bucket_sum(
                *add,
                rows.take(i + 1),
                near.take(i + 1),
                k,
                dim,
            ) by {
                if k != at {
                    assert(sums@[k] == prior[k]);
                }
            }
            assert forall|k: int| 0 <= k < total implies #[trigger] counts@[k] == muvera::bucket_count(near.take(i + 1), k) by {
                if k != at {
                    assert(counts@[k] == prior_counts[k]);
                }
            }
        }
        i += 1;
    }
    proof {
        assert(rows.take(i as int) =~= rows);
        assert(near.take(i as int) =~= near);
    }
    let ghost goal = moved_centers(*normalize, *distance, *add, *divide, rows, middles, dim);
    let mut out: Vec<Vec<Score>> = Vec::with_capacity(total);
    let mut c: usize = 0;
    while c < total
        invariant
            is_normalizing(*normalize),
            arith::is_scaling(*divide),
            total == centers@.len(),
            dim == dimension as nat,
            c <= total,
            middles == arith::rows(centers@),
            near == assignment(*distance, rows, middles),
            goal == moved_centers(*normalize, *distance, *add, *divide, rows, middles, dim),
            sums@.len() == total,
            counts@.len() == total,
            forall|k: int| 0 <= k < centers@.len() ==> (#[trigger] centers@[k])@.len() == dimension,
            forall|k: int| 0 <= k < total ==> (#[trigger] sums@[k])@ == muvera::bucket_sum(*add, rows, near, k, dim),
            forall|k: int| 0 <= k < total ==> #[trigger] counts@[k] == muvera::bucket_count(near, k),
            out@.len() == c,
            forall|k: int| 0 <= k < c ==> (#[trigger] out@[k])@ == goal[k] && out@[k]@.len() == dimension,
        decreases total - c,
    {
        proof {
            muvera::lemma_bucket_sum_len(*add, rows, near, c as int, dim);
        }
        let center: Vec<Score> = if counts[c] > 0 {
            let mean: Vec<Score> = muvera::averages_of(divide, &sums[c], counts[c]);
            normalize_one(normalize, mean.as_slice())
        } else {
            let copy: Vec<Score> = centers[c].clone();
            assert(copy@ =~= centers@[c as int]@);
            copy
        };
        assert(center@ == goal[c as int]);
        out.push(center);
        c += 1;
    }
    assert(arith::rows(out@) =~= goal);
    out
}

/// The numbers in ascending order.
pub open spec fn sorted_values(values: Seq<Score>) -> Seq<Score> {
    order::sorted_pairs(values.map_values(|v: Score| (score::total_key(v) as i64, 0u64))).map_values(
        |pair: (i64, u64)| score::at_total_key(pair.0 as int),
    )
}

/// Sorting keeps the numbers and puts them in ascending order.
pub proof fn law_sorted_values(values: Seq<Score>)
    ensures
        sorted_values(values).len() == values.len(),
        forall|x: Score| #[trigger] sorted_values(values).contains(x) <==> values.contains(x),
        forall|i: int, j: int|
            0 <= i <= j < values.len() ==> score::total_key(#[trigger] sorted_values(values)[i]) <= score::total_key(
                #[trigger] sorted_values(values)[j],
            ),
{
    let keys = values.map_values(|v: Score| (score::total_key(v) as i64, 0u64));
    let sorted = order::sorted_pairs(keys);
    let out = sorted_values(values);
    order::law_sorted_pairs(keys);
    assert forall|i: int| 0 <= i < out.len() implies values.contains(#[trigger] out[i]) && score::total_key(out[i])
        == sorted[i].0 by {
        assert(sorted.contains(sorted[i]));
        let k = choose|k: int| 0 <= k < keys.len() && keys[k] == sorted[i];
        score::law_total_key_is_injective(values[k]);
        assert(values[k] == out[i]);
    }
    assert forall|x: Score| values.contains(x) implies #[trigger] out.contains(x) by {
        let k = choose|k: int| 0 <= k < values.len() && values[k] == x;
        assert(keys[k] == (score::total_key(x) as i64, 0u64));
        assert(sorted.contains(keys[k]));
        let i = choose|i: int| 0 <= i < sorted.len() && sorted[i] == keys[k];
        score::law_total_key_is_injective(x);
        assert(out[i] == x);
    }
    assert forall|i: int, j: int| 0 <= i <= j < values.len() implies score::total_key(#[trigger] out[i])
        <= score::total_key(#[trigger] out[j]) by {
        assert(order::pair_leq(sorted[i], sorted[j]));
    }
}

fn sort_values(values: &[Score]) -> (r: Vec<Score>)
    ensures
        r@ == sorted_values(values@),
{
    let ghost keys = values@.map_values(|v: Score| (score::total_key(v) as i64, 0u64));
    let mut pairs: Vec<(i64, u64)> = Vec::with_capacity(values.len());
    let mut i: usize = 0;
    while i < values.len()
        invariant
            i <= values@.len(),
            keys == values@.map_values(|v: Score| (score::total_key(v) as i64, 0u64)),
            pairs@ == keys.take(i as int),
        decreases values@.len() - i,
    {
        pairs.push((score::total_rank(values[i]), 0));
        i += 1;
        assert(pairs@ =~= keys.take(i as int));
    }
    assert(pairs@ =~= keys);
    order::sort_pairs(&mut pairs);
    proof {
        order::law_sorted_pairs(keys);
        assert forall|k: int| 0 <= k < pairs@.len() implies -0x8000_0000 <= (#[trigger] pairs@[k]).0 < 0x8000_0000 by {
            assert(pairs@.contains(pairs@[k]));
            let m = choose|m: int| 0 <= m < keys.len() && keys[m] == pairs@[k];
            score::law_total_key_is_injective(values@[m]);
        }
    }
    let mut out: Vec<Score> = Vec::with_capacity(pairs.len());
    let mut k: usize = 0;
    while k < pairs.len()
        invariant
            k <= pairs@.len(),
            forall|n: int| 0 <= n < pairs@.len() ==> -0x8000_0000 <= (#[trigger] pairs@[n]).0 < 0x8000_0000,
            out@.len() == k,
            forall|n: int| 0 <= n < k ==> #[trigger] out@[n] == score::at_total_key(pairs@[n].0 as int),
        decreases pairs@.len() - k,
    {
        out.push(score::at_total_rank(pairs[k].0));
        k += 1;
    }
    assert(out@ =~= sorted_values(values@));
    out
}

/// The numbers with which the levels start: the medians of equal parts.
pub open spec fn first_levels(values: Seq<Score>, levels: nat) -> Seq<Score> {
    let sorted = sorted_values(values);
    Seq::new(
        levels,
        |i: int|
            {
                let at = (2 * i + 1) * sorted.len() as int / (2 * levels as int);
                sorted[if at < sorted.len() - 1 {
                    at
                } else {
                    sorted.len() - 1
                }]
            },
    )
}

/// The distances of a number from levels.
pub open spec fn level_gaps<G: Fn(Score, Score) -> Score>(gap: G, value: Score, levels: Seq<Score>) -> Seq<Score> {
    Seq::new(levels.len(), |l: int| arith::binary(gap, value, levels[l]))
}

/// The level that a number is nearest to; the first of several.
pub open spec fn level_of<G: Fn(Score, Score) -> Score>(gap: G, value: Score, levels: Seq<Score>) -> int {
    choose|at: int| score::is_first_least(level_gaps(gap, value, levels), at)
}

/// The sum of the numbers at a level, added up in their order from zero.
pub open spec fn level_sum<A: Fn(Score, Score) -> Score>(add: A, values: Seq<Score>, near: Seq<usize>, level: int) -> Score
    decreases values.len(),
{
    if values.len() == 0 {
        0
    } else {
        let before = level_sum(add, values.drop_last(), near.drop_last(), level);
        if near.last() == level {
            arith::binary(add, before, values.last())
        } else {
            before
        }
    }
}

/// The levels after one round: each that numbers are nearest to becomes their
/// mean; the others stay.
pub open spec fn moved_levels<G, A, V>(gap: G, add: A, divide: V, values: Seq<Score>, levels: Seq<Score>) -> Seq<Score> where
    G: Fn(Score, Score) -> Score,
    A: Fn(Score, Score) -> Score,
    V: Fn(Score, usize) -> Score,
 {
    let near = values.map_values(|v: Score| level_of(gap, v, levels) as usize);
    Seq::new(
        levels.len(),
        |l: int|
            {
                let n = muvera::bucket_count(near, l);
                if n > 0 {
                    arith::scaled(divide, level_sum(add, values, near, l), n as usize)
                } else {
                    levels[l]
                }
            },
    )
}

/// The levels after so many rounds.
pub open spec fn levels_after<G, A, V>(
    gap: G,
    add: A,
    divide: V,
    values: Seq<Score>,
    levels: Seq<Score>,
    rounds: nat,
) -> Seq<Score> where
    G: Fn(Score, Score) -> Score,
    A: Fn(Score, Score) -> Score,
    V: Fn(Score, usize) -> Score,

    decreases rounds,
{
    if rounds == 0 {
        levels
    } else {
        moved_levels(gap, add, divide, values, levels_after(gap, add, divide, values, levels, (rounds - 1) as nat))
    }
}

fn start_levels(values: &[Score], levels: usize) -> (r: Vec<Score>)
    requires
        values@.len() > 0,
        levels > 0,
        2 * levels * values@.len() <= usize::MAX,
    ensures
        r@ == first_levels(values@, levels as nat),
        r@.len() == levels,
{
    let sorted: Vec<Score> = sort_values(values);
    proof {
        law_sorted_values(values@);
    }
    let mut out: Vec<Score> = Vec::with_capacity(levels);
    let mut i: usize = 0;
    while i < levels
        invariant
            levels > 0,
            values@.len() > 0,
            2 * levels * values@.len() <= usize::MAX,
            sorted@ == sorted_values(values@),
            sorted@.len() == values@.len(),
            i <= levels,
            out@ == first_levels(values@, levels as nat).take(i as int),
        decreases levels - i,
    {
        proof {
            let n = values@.len() as int;
            assert((2 * i + 1) * n <= 2 * levels * n) by (nonlinear_arith)
                requires
                    2 * i + 1 <= 2 * levels,
                    n > 0,
            ;
            assert(2 * levels <= 2 * levels * n) by (nonlinear_arith)
                requires
                    n > 0,
            ;
        }
        let at: usize = (2 * i + 1) * sorted.len() / (2 * levels);
        let last: usize = sorted.len() - 1;
        let pick: usize = if at < last {
            at
        } else {
            last
        };
        out.push(sorted[pick]);
        i += 1;
        assert(out@ =~= first_levels(values@, levels as nat).take(i as int));
    }
    assert(out@ =~= first_levels(values@, levels as nat));
    out
}

fn nearest_of_levels<G: Fn(Score, Score) -> Score>(gap: &G, value: Score, levels: &Vec<Score>) -> (r: usize)
    requires
        arith::is_binary(*gap),
        levels@.len() > 0,
    ensures
        r < levels@.len(),
        r == level_of(*gap, value, levels@),
{
    let ghost all = level_gaps(*gap, value, levels@);
    let mut out: Vec<Score> = Vec::with_capacity(levels.len());
    let mut l: usize = 0;
    while l < levels.len()
        invariant
            arith::is_binary(*gap),
            l <= levels@.len(),
            all == level_gaps(*gap, value, levels@),
            out@ == all.take(l as int),
        decreases levels@.len() - l,
    {
        out.push(arith::apply_binary(gap, value, levels[l]));
        l += 1;
        assert(out@ =~= all.take(l as int));
    }
    assert(out@ =~= all);
    let at: usize = score::first_least(out.as_slice());
    proof {
        lemma_first_least(all, at as int);
    }
    at
}

fn move_levels<G, A, V>(gap: &G, add: &A, divide: &V, values: &[Score], levels: &Vec<Score>) -> (r: Vec<Score>) where
    G: Fn(Score, Score) -> Score,
    A: Fn(Score, Score) -> Score,
    V: Fn(Score, usize) -> Score,

    requires
        arith::is_binary(*gap),
        arith::is_binary(*add),
        arith::is_scaling(*divide),
        levels@.len() > 0,
    ensures
        r@ == moved_levels(*gap, *add, *divide, values@, levels@),
        r@.len() == levels@.len(),
{
    let ghost near = values@.map_values(|v: Score| level_of(*gap, v, levels@) as usize);
    let total: usize = levels.len();
    let mut sums: Vec<Score> = vec![0; total];
    let mut counts: Vec<usize> = vec![0; total];
    let mut i: usize = 0;
    assert(values@.take(0) =~= Seq::<Score>::empty());
    assert(near.take(0) =~= Seq::<usize>::empty());
    while i < values.len()
        invariant
            arith::is_binary(*gap),
            arith::is_binary(*add),
            total == levels@.len(),
            total > 0,
            near == values@.map_values(|v: Score| level_of(*gap, v, levels@) as usize),
            i <= values@.len(),
            sums@.len() == total,
            counts@.len() == total,
            forall|k: int|
                0 <= k < total ==> #[trigger] sums@[k] == level_sum(
                    *add,
                    values@.take(i as int),
                    near.take(i as int),
                    k,
                ),
            forall|k: int| 0 <= k < total ==> #[trigger] counts@[k] == muvera::bucket_count(near.take(i as int), k),
        decreases values@.len() - i,
    {
        let value: Score = values[i];
        let at: usize = nearest_of_levels(gap, value, levels);
        let ghost prior = sums@;
        let ghost prior_counts = counts@;
        proof {
            assert(near[i as int] == at);
            assert(values@.take(i + 1).drop_last() =~= values@.take(i as int));
            assert(near.take(i + 1).drop_last() =~= near.take(i as int));
            assert(values@.take(i + 1).last() == value);
            assert(near.take(i + 1).last() == at);
            muvera::lemma_bucket_count_bound(near.take(i as int), at as int);
        }
        let sum: Score = arith::apply_binary(add, sums[at], value);
        sums.set(at, sum);
        counts.set(at, counts[at] + 1);
        proof {
            assert forall|k: int| 0 <= k < total implies #[trigger] sums@[k] == level_sum(
                *add,
                values@.take(i + 1),
                near.take(i + 1),
                k,
            ) by {
                if k != at {
                    assert(sums@[k] == prior[k]);
                }
            }
            assert forall|k: int| 0 <= k < total implies #[trigger] counts@[k] == muvera::bucket_count(near.take(i + 1), k) by {
                if k != at {
                    assert(counts@[k] == prior_counts[k]);
                }
            }
        }
        i += 1;
    }
    proof {
        assert(values@.take(i as int) =~= values@);
        assert(near.take(i as int) =~= near);
    }
    let ghost goal = moved_levels(*gap, *add, *divide, values@, levels@);
    let mut out: Vec<Score> = Vec::with_capacity(total);
    let mut l: usize = 0;
    while l < total
        invariant
            arith::is_scaling(*divide),
            total == levels@.len(),
            l <= total,
            near == values@.map_values(|v: Score| level_of(*gap, v, levels@) as usize),
            goal == moved_levels(*gap, *add, *divide, values@, levels@),
            sums@.len() == total,
            counts@.len() == total,
            forall|k: int| 0 <= k < total ==> #[trigger] sums@[k] == level_sum(*add, values@, near, k),
            forall|k: int| 0 <= k < total ==> #[trigger] counts@[k] == muvera::bucket_count(near, k),
            out@ == goal.take(l as int),
        decreases total - l,
    {
        let level: Score = if counts[l] > 0 {
            arith::apply_scaling(divide, sums[l], counts[l])
        } else {
            levels[l]
        };
        assert(level == goal[l as int]);
        out.push(level);
        l += 1;
        assert(out@ =~= goal.take(l as int));
    }
    assert(out@ =~= goal);
    out
}

/// Levels for numbers, ascending: the medians of equal parts, moved so many times
/// to the means of the numbers nearest to them.
///
/// `gap` gives the distance of a number from a level, `add` the sum of two
/// numbers, `divide` a number over a count.
pub fn train_scalar_codebook<G, A, V>(
    values: &[Score],
    levels: usize,
    iterations: usize,
    gap: &G,
    add: &A,
    divide: &V,
) -> (r: Vec<Score>) where
    G: Fn(Score, Score) -> Score,
    A: Fn(Score, Score) -> Score,
    V: Fn(Score, usize) -> Score,

    requires
        arith::is_binary(*gap),
        arith::is_binary(*add),
        arith::is_scaling(*divide),
        values@.len() > 0,
        levels > 0,
        2 * levels * values@.len() <= usize::MAX,
    ensures
        r@ == sorted_values(
            levels_after(*gap, *add, *divide, values@, first_levels(values@, levels as nat), iterations as nat),
        ),
        r@.len() == levels,
{
    let mut centers: Vec<Score> = start_levels(values, levels);
    let mut i: usize = 0;
    while i < iterations
        invariant
            arith::is_binary(*gap),
            arith::is_binary(*add),
            arith::is_scaling(*divide),
            levels > 0,
            i <= iterations,
            centers@.len() == levels,
            centers@ == levels_after(
                *gap,
                *add,
                *divide,
                values@,
                first_levels(values@, levels as nat),
                i as nat,
            ),
        decreases iterations - i,
    {
        centers = move_levels(gap, add, divide, values, &centers);
        i += 1;
    }
    proof {
        law_sorted_values(centers@);
    }
    sort_values(centers.as_slice())
}

/// What is left of the samples beside their centroids, sample after sample.
pub open spec fn residuals_of<D, S>(distance: D, subtract: S, samples: Seq<Seq<Score>>, centers: Seq<Seq<Score>>) -> Seq<
    Score,
> where D: Fn(&[Score], &[Score]) -> Score, S: Fn(Score, Score) -> Score
    decreases samples.len(),
{
    if samples.len() == 0 {
        Seq::empty()
    } else {
        let v = samples.last();
        let center = centers[nearest_center(distance, v, centers)];
        residuals_of(distance, subtract, samples.drop_last(), centers) + Seq::new(
            v.len(),
            |d: int| arith::binary(subtract, v[d], center[d]),
        )
    }
}

fn residuals<D, S>(distance: &D, subtract: &S, samples: &[Vec<Score>], centers: &[Vec<Score>], dimension: usize) -> (r: Vec<
    Score,
>) where D: Fn(&[Score], &[Score]) -> Score, S: Fn(Score, Score) -> Score
    requires
        arith::is_measure(*distance),
        arith::is_binary(*subtract),
        centers@.len() > 0,
        forall|i: int| 0 <= i < samples@.len() ==> (#[trigger] samples@[i])@.len() == dimension,
        forall|i: int| 0 <= i < centers@.len() ==> (#[trigger] centers@[i])@.len() == dimension,
    ensures
        r@ == residuals_of(*distance, *subtract, arith::rows(samples@), arith::rows(centers@)),
        r@.len() == samples@.len() * dimension,
{
    let ghost rows = arith::rows(samples@);
    let ghost middles = arith::rows(centers@);
    let mut out: Vec<Score> = Vec::new();
    let mut i: usize = 0;
    proof {
        assert(rows.take(0) =~= Seq::<Seq<Score>>::empty());
        assert(0 * dimension == 0) by (nonlinear_arith);
    }
    while i < samples.len()
        invariant
            arith::is_measure(*distance),
            arith::is_binary(*subtract),
            centers@.len() > 0,
            forall|k: int| 0 <= k < samples@.len() ==> (#[trigger] samples@[k])@.len() == dimension,
            forall|k: int| 0 <= k < centers@.len() ==> (#[trigger] centers@[k])@.len() == dimension,
            rows == arith::rows(samples@),
            middles == arith::rows(centers@),
            i <= samples@.len(),
            out@ == residuals_of(*distance, *subtract, rows.take(i as int), middles),
            out@.len() == i * dimension,
        decreases samples@.len() - i,
    {
        let sample: &Vec<Score> = &samples[i];
        let at: usize = nearest(sample.as_slice(), centers, distance);
        let center: &Vec<Score> = &centers[at];
        let ghost before = out@;
        let ghost rest = Seq::new(dimension as nat, |d: int| arith::binary(*subtract, sample@[d], center@[d]));
        let mut d: usize = 0;
        while d < dimension
            invariant
                arith::is_binary(*subtract),
                sample@.len() == dimension,
                center@.len() == dimension,
                d <= dimension,
                rest == Seq::new(dimension as nat, |k: int| arith::binary(*subtract, sample@[k], center@[k])),
                out@ == before + rest.take(d as int),
            decreases dimension - d,
        {
            out.push(arith::apply_binary(subtract, sample[d], center[d]));
            assert(rest.take(d + 1) =~= rest.take(d as int).push(rest[d as int]));
            d += 1;
        }
        proof {
            assert(rest.take(d as int) =~= rest);
            assert(rows.take(i + 1).drop_last() =~= rows.take(i as int));
            assert(rows.take(i + 1).last() == sample@);
            assert(out@ =~= residuals_of(*distance, *subtract, rows.take(i + 1), middles));
            assert((i + 1) * dimension == i * dimension + dimension) by (nonlinear_arith);
        }
        i += 1;
    }
    assert(rows.take(i as int) =~= rows);
    out
}

/// The rounds that a training makes: at least one.
pub open spec fn rounds(iterations: usize) -> nat {
    if iterations > 1 {
        iterations as nat
    } else {
        1
    }
}

/// The centroids that samples train.
pub open spec fn trained_codebook<N, D, A, V>(
    normalize: N,
    distance: D,
    add: A,
    divide: V,
    c: IndexConfig,
    samples: Seq<Seq<Score>>,
    iterations: usize,
) -> Seq<Seq<Score>> where
    N: Fn(&[Score]) -> Vec<Score>,
    D: Fn(&[Score], &[Score]) -> Score,
    A: Fn(Score, Score) -> Score,
    V: Fn(Score, usize) -> Score,
 {
    let unit = samples.map_values(|v: Seq<Score>| normalized(normalize, v));
    centers_after(
        normalize,
        distance,
        add,
        divide,
        unit,
        seeds(unit, c.centroids as nat),
        c.dimension as nat,
        rounds(iterations),
    )
}

impl MultiVectorIndex {
    /// Trains codebooks from samples and stages the next generation with them.
    ///
    /// `normalize` scales a vector to unit length; `distance` gives the distance of
    /// two vectors, `gap` that of two numbers; `add`, `subtract` and `divide` give
    /// the sum and the difference of two numbers, and a number over a count.
    pub fn train<N, D, A, S, G, V>(
        &self,
        samples: &[Vec<Score>],
        iterations: usize,
        normalize: &N,
        distance: &D,
        add: &A,
        subtract: &S,
        gap: &G,
        divide: &V,
    ) -> (r: Result<State, IndexError>) where
        N: Fn(&[Score]) -> Vec<Score>,
        D: Fn(&[Score], &[Score]) -> Score,
        A: Fn(Score, Score) -> Score,
        S: Fn(Score, Score) -> Score,
        G: Fn(Score, Score) -> Score,
        V: Fn(Score, usize) -> Score,

        requires
            self.ok(),
            is_normalizing(*normalize),
            arith::is_measure(*distance),
            arith::is_binary(*add),
            arith::is_binary(*subtract),
            arith::is_binary(*gap),
            arith::is_scaling(*divide),
            self.config.centroids * samples@.len() <= usize::MAX,
            2 * pow2(self.config.residual_bits as nat) * (samples@.len() * self.config.dimension) <= usize::MAX,
        ensures
            match self.train_error(arith::rows(samples@)) {
                Some(e) => r == Err::<State, IndexError>(e),
                None => if self.state.generation == u64::MAX {
                    r == Err::<State, IndexError>(IndexError::Invalid(config::Reason::GenerationExhausted))
                } else {
                    let unit = arith::rows(samples@).map_values(|v: Seq<Score>| normalized(*normalize, v));
                    let codebook = trained_codebook(
                        *normalize,
                        *distance,
                        *add,
                        *divide,
                        self.config,
                        arith::rows(samples@),
                        iterations,
                    );
                    let rest = residuals_of(*distance, *subtract, unit, codebook);
                    let levels = sorted_values(
                        levels_after(
                            *gap,
                            *add,
                            *divide,
                            rest,
                            first_levels(rest, pow2(self.config.residual_bits as nat)),
                            12,
                        ),
                    );
                    &&& r is Ok
                    &&& r->Ok_0@ == self.state@.trained(codebook, levels).committed()
                    &&& self.accepts(&r->Ok_0)
                },
            },
    {
        if let Err(e) = self.check_train(samples) {
            return Err(e);
        }
        let dimension: usize = self.config.dimension;
        let ghost rows = arith::rows(samples@);
        proof {
            assert forall|i: int| 0 <= i < samples@.len() implies (#[trigger] samples@[i])@.len() == dimension by {
                assert(rows[i].len() == dimension);
            }
        }
        let unit: Vec<Vec<Score>> = normalize_all(normalize, samples);
        let ghost units = arith::rows(unit@);
        let mut centers: Vec<Vec<Score>> = seed_centers(unit.as_slice(), self.config.centroids);
        let ghost start = arith::rows(centers@);
        proof {
            assert forall|i: int| 0 <= i < centers@.len() implies (#[trigger] centers@[i])@.len() == dimension by {
                let n = unit@.len() as int;
                let c = self.config.centroids as int;
                assert(0 <= i * n / c < n) by (nonlinear_arith)
                    requires
                        0 <= i < c,
                        n > 0,
                ;
                assert(centers@[i]@ == start[i]);
                assert(start[i] == unit@[i * n / c]@);
            }
        }
        let total: usize = if iterations > 1 {
            iterations
        } else {
            1
        };
        let mut round: usize = 0;
        while round < total
            invariant
                is_normalizing(*normalize),
                arith::is_measure(*distance),
                arith::is_binary(*add),
                arith::is_scaling(*divide),
                units == arith::rows(unit@),
                round <= total,
                centers@.len() == self.config.centroids,
                self.config.centroids > 0,
                forall|i: int| 0 <= i < unit@.len() ==> (#[trigger] unit@[i])@.len() == dimension,
                forall|i: int| 0 <= i < centers@.len() ==> (#[trigger] centers@[i])@.len() == dimension,
                arith::rows(centers@) == centers_after(
                    *normalize,
                    *distance,
                    *add,
                    *divide,
                    units,
                    start,
                    dimension as nat,
                    round as nat,
                ),
            decreases total - round,
        {
            centers = move_centers(normalize, distance, add, divide, unit.as_slice(), &centers, dimension);
            round += 1;
        }
        let rest: Vec<Score> = residuals(distance, subtract, unit.as_slice(), centers.as_slice(), dimension);
        let levels: usize = config::power_of_two(self.config.residual_bits as usize);
        proof {
            vstd::arithmetic::power2::lemma2_to64();
            if self.config.residual_bits < 8 {
                vstd::arithmetic::power2::lemma_pow2_strictly_increases(self.config.residual_bits as nat, 8);
            }
            vstd::arithmetic::power2::lemma_pow2_pos(self.config.residual_bits as nat);
            let n = rest@.len() as int;
            assert(n > 0) by (nonlinear_arith)
                requires
                    n == unit@.len() * dimension,
                    unit@.len() > 0,
                    dimension > 0,
            ;
        }
        let residual_codebook: Vec<Score> = train_scalar_codebook(rest.as_slice(), levels, 12, gap, add, divide);
        proof {
            assert(arith::rows(centers@).len() == centers@.len());
            assert forall|i: int| 0 <= i < arith::rows(centers@).len() implies (#[trigger] arith::rows(centers@)[i]).len()
                == self.config.dimension by {
                assert(arith::rows(centers@)[i] == centers@[i]@);
            }
        }
        self.stage_training(centers, residual_codebook)
    }
}

} // verus!
