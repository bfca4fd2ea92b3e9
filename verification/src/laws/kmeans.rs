//! What training makes: centroids that rounds of k-means reach, and levels for what is
//! left beside them.

use vstd::prelude::*;
use crate::arith;
use crate::config::IndexConfig;
use crate::engine::train;
use crate::laws::encode::mean;
use crate::muvera;
use crate::score;
use crate::score::Score;
use crate::storage;

verus! {

/// Whether a center is the first of those that are nearest to a vector.
pub open spec fn is_nearest<D: Fn(&[Score], &[Score]) -> Score>(
    distance: D,
    centers: Seq<Seq<Score>>,
    v: Seq<Score>,
    c: int,
) -> bool {
    &&& 0 <= c < centers.len()
    &&& forall|o: int|
        0 <= o < centers.len() ==> {
            let own = score::total_key(arith::measure(distance, v, centers[c]));
            let other = score::total_key(arith::measure(distance, v, #[trigger] centers[o]));
            own < other || (own == other && c <= o)
        }
}

/// The center found for a vector is its nearest.
pub proof fn law_nearest_center_is_nearest<D: Fn(&[Score], &[Score]) -> Score>(
    distance: D,
    centers: Seq<Seq<Score>>,
    v: Seq<Score>,
    c: int,
)
    requires
        centers.len() > 0,
    ensures
        train::nearest_center(distance, v, centers) == c <==> is_nearest(distance, centers, v, c),
{
    let all = train::distances(distance, v, centers);
    let at = storage::lemma_first_least_exists(all);
    let found = train::nearest_center(distance, v, centers);
    assert(score::is_first_least(all, found));
    assert(is_nearest(distance, centers, v, found)) by {
        assert forall|o: int| 0 <= o < centers.len() implies {
            let own = score::total_key(arith::measure(distance, v, centers[found]));
            let other = score::total_key(arith::measure(distance, v, #[trigger] centers[o]));
            own < other || (own == other && found <= o)
        } by {
            assert(score::total_key(all[found]) <= score::total_key(all[o]));
            if o < found {
                assert(score::total_key(all[found]) < score::total_key(all[o]));
            }
        }
    }
    if is_nearest(distance, centers, v, c) {
        assert(centers[found] == centers[found] && centers[c] == centers[c]);
    }
}

/// Whether centers come from others by one round of k-means: each center to which
/// samples are nearest becomes the normalized mean of those samples, and the others stay.
pub open spec fn is_round<N, D, A, V>(
    normalize: N,
    distance: D,
    add: A,
    divide: V,
    samples: Seq<Seq<Score>>,
    dimension: nat,
    before: Seq<Seq<Score>>,
    after: Seq<Seq<Score>>,
) -> bool where
    N: Fn(&[Score]) -> Vec<Score>,
    D: Fn(&[Score], &[Score]) -> Score,
    A: Fn(Score, Score) -> Score,
    V: Fn(Score, usize) -> Score,
 {
    &&& after.len() == before.len()
    &&& forall|c: int|
        0 <= c < before.len() ==> {
            let own = samples.filter(|v: Seq<Score>| is_nearest(distance, before, v, c));
            #[trigger] after[c] == if own.len() > 0 {
                train::normalized(normalize, mean(add, divide, own, dimension))
            } else {
                before[c]
            }
        }
}

/// What stands in a cluster, and what it adds up.
proof fn lemma_cluster<A: Fn(Score, Score) -> Score>(
    add: A,
    samples: Seq<Seq<Score>>,
    near: Seq<usize>,
    c: int,
    dimension: nat,
    own: spec_fn(Seq<Score>) -> bool,
    d: int,
    plus: spec_fn(Score, Seq<Score>) -> Score,
)
    requires
        near.len() == samples.len(),
        forall|i: int| 0 <= i < samples.len() ==> (near[i] == c <==> own(#[trigger] samples[i])),
        forall|s: Score, v: Seq<Score>| #[trigger] plus(s, v) == arith::binary(add, s, v[d]),
        0 <= d < dimension,
    ensures
        muvera::bucket_sum(add, samples, near, c, dimension).len() == dimension,
        muvera::bucket_sum(add, samples, near, c, dimension)[d] == samples.filter(own).fold_left(0, plus),
        muvera::bucket_count(near, c) == samples.filter(own).len(),
    decreases samples.len(),
{
    reveal(Seq::filter);
    muvera::lemma_bucket_sum_len(add, samples, near, c, dimension);
    if samples.len() > 0 {
        let rest = samples.drop_last();
        assert forall|i: int| 0 <= i < rest.len() implies (near.drop_last()[i] == c <==> own(#[trigger] rest[i])) by {
            assert(rest[i] == samples[i]);
        }
        lemma_cluster(add, rest, near.drop_last(), c, dimension, own, d, plus);
        muvera::lemma_bucket_sum_len(add, rest, near.drop_last(), c, dimension);
        assert(samples.last() == samples[samples.len() - 1]);
        if own(samples.last()) {
            assert(samples.filter(own).drop_last() =~= rest.filter(own));
        }
    }
}

/// Moving the centers is one round of k-means.
pub proof fn law_moving_centers_is_a_round<N, D, A, V>(
    normalize: N,
    distance: D,
    add: A,
    divide: V,
    samples: Seq<Seq<Score>>,
    dimension: nat,
    before: Seq<Seq<Score>>,
) where
    N: Fn(&[Score]) -> Vec<Score>,
    D: Fn(&[Score], &[Score]) -> Score,
    A: Fn(Score, Score) -> Score,
    V: Fn(Score, usize) -> Score,

    requires
        before.len() <= usize::MAX,
    ensures
        is_round(
            normalize,
            distance,
            add,
            divide,
            samples,
            dimension,
            before,
            train::moved_centers(normalize, distance, add, divide, samples, before, dimension),
        ),
{
    let near = train::assignment(distance, samples, before);
    let after = train::moved_centers(normalize, distance, add, divide, samples, before, dimension);
    assert forall|c: int| 0 <= c < before.len() implies {
        let own = samples.filter(|v: Seq<Score>| is_nearest(distance, before, v, c));
        #[trigger] after[c] == if own.len() > 0 {
            train::normalized(normalize, mean(add, divide, own, dimension))
        } else {
            before[c]
        }
    } by {
        let inside = |v: Seq<Score>| is_nearest(distance, before, v, c);
        assert forall|i: int| 0 <= i < samples.len() implies (near[i] == c <==> inside(#[trigger] samples[i])) by {
            let found = train::nearest_center(distance, samples[i], before);
            law_nearest_center_is_nearest(distance, before, samples[i], c);
            law_nearest_center_is_nearest(distance, before, samples[i], found);
        }
        let own = samples.filter(inside);
        let sum = muvera::bucket_sum(add, samples, near, c, dimension);
        muvera::lemma_bucket_sum_len(add, samples, near, c, dimension);
        lemma_cluster(
            add,
            samples,
            near,
            c,
            1,
            inside,
            0,
            |s: Score, v: Seq<Score>| arith::binary(add, s, v[0]),
        );
        let n = muvera::bucket_count(near, c);
        assert(n == own.len());
        assert forall|d: int| 0 <= d < dimension implies #[trigger] sum[d] == own.fold_left(
            0,
            |s: Score, v: Seq<Score>| arith::binary(add, s, v[d]),
        ) by {
            lemma_cluster(
                add,
                samples,
                near,
                c,
                dimension,
                inside,
                d,
                |s: Score, v: Seq<Score>| arith::binary(add, s, v[d]),
            );
        }
        assert(muvera::averages(divide, sum, n as usize) =~= mean(add, divide, own, dimension));
    }
}

/// The normalized samples.
pub open spec fn units<N: Fn(&[Score]) -> Vec<Score>>(normalize: N, samples: Seq<Seq<Score>>) -> Seq<Seq<Score>> {
    samples.map_values(|v: Seq<Score>| train::normalized(normalize, v))
}

proof fn lemma_centers_len<N, D, A, V>(
    normalize: N,
    distance: D,
    add: A,
    divide: V,
    samples: Seq<Seq<Score>>,
    centers: Seq<Seq<Score>>,
    dimension: nat,
    rounds: nat,
) where
    N: Fn(&[Score]) -> Vec<Score>,
    D: Fn(&[Score], &[Score]) -> Score,
    A: Fn(Score, Score) -> Score,
    V: Fn(Score, usize) -> Score,

    ensures
        train::centers_after(normalize, distance, add, divide, samples, centers, dimension, rounds).len()
            == centers.len(),
    decreases rounds,
{
    if rounds > 0 {
        lemma_centers_len(normalize, distance, add, divide, samples, centers, dimension, (rounds - 1) as nat);
    }
}

/// A training with one iteration, or with none, makes one round of k-means from samples
/// that are evenly spread over all.
pub proof fn law_training_starts_from_spread_samples<N, D, A, V>(
    normalize: N,
    distance: D,
    add: A,
    divide: V,
    c: IndexConfig,
    samples: Seq<Seq<Score>>,
    iterations: usize,
) where
    N: Fn(&[Score]) -> Vec<Score>,
    D: Fn(&[Score], &[Score]) -> Score,
    A: Fn(Score, Score) -> Score,
    V: Fn(Score, usize) -> Score,

    requires
        iterations <= 1,
    ensures
        is_round(
            normalize,
            distance,
            add,
            divide,
            units(normalize, samples),
            c.dimension as nat,
            Seq::new(
                c.centroids as nat,
                |i: int| units(normalize, samples)[i * samples.len() as int / c.centroids as int],
            ),
            train::trained_codebook(normalize, distance, add, divide, c, samples, iterations),
        ),
{
    let unit = units(normalize, samples);
    let start = train::seeds(unit, c.centroids as nat);
    assert(start =~= Seq::new(c.centroids as nat, |i: int| unit[i * samples.len() as int / c.centroids as int]));
    law_moving_centers_is_a_round(normalize, distance, add, divide, unit, c.dimension as nat, start);
    reveal_with_fuel(train::centers_after, 2);
}

/// A training with one more iteration makes one more round of k-means from where the
/// other one ended.
pub proof fn law_one_more_iteration_is_one_more_round<N, D, A, V>(
    normalize: N,
    distance: D,
    add: A,
    divide: V,
    c: IndexConfig,
    samples: Seq<Seq<Score>>,
    iterations: usize,
) where
    N: Fn(&[Score]) -> Vec<Score>,
    D: Fn(&[Score], &[Score]) -> Score,
    A: Fn(Score, Score) -> Score,
    V: Fn(Score, usize) -> Score,

    requires
        1 <= iterations < usize::MAX,
    ensures
        is_round(
            normalize,
            distance,
            add,
            divide,
            units(normalize, samples),
            c.dimension as nat,
            train::trained_codebook(normalize, distance, add, divide, c, samples, iterations),
            train::trained_codebook(normalize, distance, add, divide, c, samples, (iterations + 1) as usize),
        ),
{
    let unit = units(normalize, samples);
    let start = train::seeds(unit, c.centroids as nat);
    let before = train::trained_codebook(normalize, distance, add, divide, c, samples, iterations);
    lemma_centers_len(
        normalize,
        distance,
        add,
        divide,
        unit,
        start,
        c.dimension as nat,
        iterations as nat,
    );
    law_moving_centers_is_a_round(normalize, distance, add, divide, unit, c.dimension as nat, before);
}

/// Where one more iteration changes nothing, each centroid to which samples are nearest
/// is their normalized mean, and no number of further iterations changes anything.
pub proof fn law_settled_centroids_are_means<N, D, A, V>(
    normalize: N,
    distance: D,
    add: A,
    divide: V,
    c: IndexConfig,
    samples: Seq<Seq<Score>>,
    iterations: usize,
    later: usize,
) where
    N: Fn(&[Score]) -> Vec<Score>,
    D: Fn(&[Score], &[Score]) -> Score,
    A: Fn(Score, Score) -> Score,
    V: Fn(Score, usize) -> Score,

    requires
        1 <= iterations < later,
        train::trained_codebook(normalize, distance, add, divide, c, samples, iterations) == train::trained_codebook(
            normalize,
            distance,
            add,
            divide,
            c,
            samples,
            (iterations + 1) as usize,
        ),
    ensures
        ({
            let centers = train::trained_codebook(normalize, distance, add, divide, c, samples, iterations);
            &&& train::trained_codebook(normalize, distance, add, divide, c, samples, later) == centers
            &&& forall|k: int|
                0 <= k < centers.len() ==> {
                    let own = units(normalize, samples).filter(|v: Seq<Score>| is_nearest(distance, centers, v, k));
                    own.len() > 0 ==> #[trigger] centers[k] == train::normalized(
                        normalize,
                        mean(add, divide, own, c.dimension as nat),
                    )
                }
        }),
    decreases later - iterations,
{
    law_one_more_iteration_is_one_more_round(normalize, distance, add, divide, c, samples, iterations);
    if later > iterations + 1 {
        assert(train::trained_codebook(normalize, distance, add, divide, c, samples, (iterations + 2) as usize)
            == train::trained_codebook(normalize, distance, add, divide, c, samples, (iterations + 1) as usize));
        law_settled_centroids_are_means(
            normalize,
            distance,
            add,
            divide,
            c,
            samples,
            (iterations + 1) as usize,
            later,
        );
    }
}

/// Whether a list holds the same numbers as another one, as often, in ascending order.
pub open spec fn is_ascending_arrangement(values: Seq<Score>, out: Seq<Score>) -> bool {
    &&& out.to_multiset() == values.to_multiset()
    &&& out.len() == values.len()
    &&& forall|i: int, j: int|
        0 <= i <= j < out.len() ==> score::total_key(#[trigger] out[i]) <= score::total_key(#[trigger] out[j])
}

proof fn lemma_mapped_count<A, B>(s: Seq<A>, f: spec_fn(A) -> B, x: A)
    requires
        forall|i: int| 0 <= i < s.len() && f(#[trigger] s[i]) == f(x) ==> s[i] == x,
    ensures
        s.map_values(f).to_multiset().count(f(x)) == s.to_multiset().count(x),
    decreases s.len(),
{
    broadcast use vstd::seq_lib::group_to_multiset_ensures;

    if s.len() > 0 {
        let rest = s.drop_last();
        let last = s[s.len() - 1];
        assert forall|i: int| 0 <= i < rest.len() && f(#[trigger] rest[i]) == f(x) implies rest[i] == x by {
            assert(rest[i] == s[i]);
        }
        lemma_mapped_count(rest, f, x);
        assert(rest.push(last) =~= s);
        assert(rest.map_values(f).push(f(last)) =~= s.map_values(f));
        vstd::seq_lib::to_multiset_build(rest, last);
        vstd::seq_lib::to_multiset_build(rest.map_values(f), f(last));
        assert(f(s[s.len() - 1]) == f(last));
    } else {
        assert(s.map_values(f) =~= Seq::empty());
    }
}

/// Sorted numbers are the same numbers in ascending order.
pub proof fn law_sorting_arranges(values: Seq<Score>)
    ensures
        is_ascending_arrangement(values, train::sorted_values(values)),
{
    broadcast use vstd::seq_lib::group_to_multiset_ensures;

    let key = |v: Score| (score::total_key(v) as i64, 0u64);
    let value = |pair: (i64, u64)| score::at_total_key(pair.0 as int);
    let keys = values.map_values(key);
    let sorted = crate::order::sorted_pairs(keys);
    let out = train::sorted_values(values);
    train::law_sorted_values(values);
    crate::order::law_sorted_pairs(keys);
    assert forall|x: Score| #[trigger] out.to_multiset().count(x) == values.to_multiset().count(x) by {
        score::law_total_key_is_injective(x);
        assert forall|i: int| 0 <= i < values.len() && key(#[trigger] values[i]) == key(x) implies values[i] == x by {
            score::law_total_key_is_injective(values[i]);
        }
        lemma_mapped_count(values, key, x);
        assert forall|i: int| 0 <= i < sorted.len() && value(#[trigger] sorted[i]) == value(key(x)) implies sorted[i]
            == key(x) by {
            assert(sorted.contains(sorted[i]));
            let k = choose|k: int| 0 <= k < keys.len() && keys[k] == sorted[i];
            score::law_total_key_is_injective(values[k]);
        }
        lemma_mapped_count(sorted, value, key(x));
        assert(out =~= sorted.map_values(value));
        assert(value(key(x)) == x);
    }
    assert(out.to_multiset() =~= values.to_multiset());
}

/// Whether a level is the first of those that are nearest to a number.
pub open spec fn is_nearest_level<G: Fn(Score, Score) -> Score>(
    gap: G,
    levels: Seq<Score>,
    value: Score,
    l: int,
) -> bool {
    &&& 0 <= l < levels.len()
    &&& forall|o: int|
        0 <= o < levels.len() ==> {
            let own = score::total_key(arith::binary(gap, value, levels[l]));
            let other = score::total_key(arith::binary(gap, value, #[trigger] levels[o]));
            own < other || (own == other && l <= o)
        }
}

proof fn lemma_nearest_level<G: Fn(Score, Score) -> Score>(gap: G, levels: Seq<Score>, value: Score, l: int)
    requires
        levels.len() > 0,
    ensures
        train::level_of(gap, value, levels) == l <==> is_nearest_level(gap, levels, value, l),
        0 <= train::level_of(gap, value, levels) < levels.len(),
{
    let all = train::level_gaps(gap, value, levels);
    let at = storage::lemma_first_least_exists(all);
    let found = train::level_of(gap, value, levels);
    assert(score::is_first_least(all, found));
    assert forall|o: int| 0 <= o < levels.len() implies {
        let own = score::total_key(arith::binary(gap, value, levels[found]));
        let other = score::total_key(arith::binary(gap, value, #[trigger] levels[o]));
        own < other || (own == other && found <= o)
    } by {
        assert(score::total_key(all[found]) <= score::total_key(all[o]));
        if o < found {
            assert(score::total_key(all[found]) < score::total_key(all[o]));
        }
    }
    if is_nearest_level(gap, levels, value, l) {
        assert(levels[found] == levels[found] && levels[l] == levels[l]);
    }
}

/// Whether levels come from others by one round: each level to which numbers are nearest
/// becomes the mean of those numbers, and the others stay.
pub open spec fn is_level_round<G, A, V>(
    gap: G,
    add: A,
    divide: V,
    values: Seq<Score>,
    before: Seq<Score>,
    after: Seq<Score>,
) -> bool where G: Fn(Score, Score) -> Score, A: Fn(Score, Score) -> Score, V: Fn(Score, usize) -> Score {
    &&& after.len() == before.len()
    &&& forall|l: int|
        0 <= l < before.len() ==> {
            let own = values.filter(|v: Score| is_nearest_level(gap, before, v, l));
            #[trigger] after[l] == if own.len() > 0 {
                arith::scaled(
                    divide,
                    own.fold_left(0, |s: Score, v: Score| arith::binary(add, s, v)),
                    own.len() as usize,
                )
            } else {
                before[l]
            }
        }
}

proof fn lemma_level_sum<A: Fn(Score, Score) -> Score>(
    add: A,
    values: Seq<Score>,
    near: Seq<usize>,
    l: int,
    own: spec_fn(Score) -> bool,
    plus: spec_fn(Score, Score) -> Score,
)
    requires
        near.len() == values.len(),
        forall|i: int| 0 <= i < values.len() ==> (near[i] == l <==> own(#[trigger] values[i])),
        forall|s: Score, v: Score| #[trigger] plus(s, v) == arith::binary(add, s, v),
    ensures
        train::level_sum(add, values, near, l) == values.filter(own).fold_left(0, plus),
        muvera::bucket_count(near, l) == values.filter(own).len(),
    decreases values.len(),
{
    reveal(Seq::filter);
    if values.len() > 0 {
        let rest = values.drop_last();
        assert forall|i: int| 0 <= i < rest.len() implies (near.drop_last()[i] == l <==> own(#[trigger] rest[i])) by {
            assert(rest[i] == values[i]);
        }
        lemma_level_sum(add, rest, near.drop_last(), l, own, plus);
        assert(values.last() == values[values.len() - 1]);
        if own(values.last()) {
            assert(values.filter(own).drop_last() =~= rest.filter(own));
        }
    }
}

proof fn lemma_level_round<G, A, V>(gap: G, add: A, divide: V, values: Seq<Score>, before: Seq<Score>) where
    G: Fn(Score, Score) -> Score,
    A: Fn(Score, Score) -> Score,
    V: Fn(Score, usize) -> Score,

    requires
        before.len() <= usize::MAX,
    ensures
        is_level_round(gap, add, divide, values, before, train::moved_levels(gap, add, divide, values, before)),
{
    let near = values.map_values(|v: Score| train::level_of(gap, v, before) as usize);
    let after = train::moved_levels(gap, add, divide, values, before);
    assert forall|l: int| 0 <= l < before.len() implies {
        let own = values.filter(|v: Score| is_nearest_level(gap, before, v, l));
        #[trigger] after[l] == if own.len() > 0 {
            arith::scaled(
                divide,
                own.fold_left(0, |s: Score, v: Score| arith::binary(add, s, v)),
                own.len() as usize,
            )
        } else {
            before[l]
        }
    } by {
        let inside = |v: Score| is_nearest_level(gap, before, v, l);
        assert forall|i: int| 0 <= i < values.len() implies (near[i] == l <==> inside(#[trigger] values[i])) by {
            lemma_nearest_level(gap, before, values[i], l);
        }
        lemma_level_sum(
            add,
            values,
            near,
            l,
            inside,
            |s: Score, v: Score| arith::binary(add, s, v),
        );
    }
}

/// Whether stages lead from the medians of equal parts of numbers through rounds.
pub open spec fn are_level_stages<G, A, V>(
    gap: G,
    add: A,
    divide: V,
    values: Seq<Score>,
    levels: nat,
    stages: Seq<Seq<Score>>,
) -> bool where G: Fn(Score, Score) -> Score, A: Fn(Score, Score) -> Score, V: Fn(Score, usize) -> Score {
    &&& stages.len() > 0
    &&& stages[0].len() == levels
    &&& exists|sorted: Seq<Score>| #[trigger]
        is_ascending_arrangement(values, sorted) && forall|i: int|
            0 <= i < levels ==> {
                let middle = (2 * i + 1) * values.len() / (2 * levels as int);
                #[trigger] stages[0][i] == sorted[if middle < values.len() - 1 {
                    middle
                } else {
                    values.len() - 1
                }]
            }
    &&& forall|r: int|
        0 < r < stages.len() ==> is_level_round(gap, add, divide, values, stages[r - 1], #[trigger] stages[r])
}

/// Training of levels starts from the medians of equal parts, makes as many rounds as
/// asked for, and gives the levels in ascending order.
pub proof fn law_levels_are_trained_by_rounds<G, A, V>(
    gap: G,
    add: A,
    divide: V,
    values: Seq<Score>,
    levels: nat,
    iterations: nat,
) where G: Fn(Score, Score) -> Score, A: Fn(Score, Score) -> Score, V: Fn(Score, usize) -> Score
    requires
        levels <= usize::MAX,
    ensures
        exists|stages: Seq<Seq<Score>>| #[trigger]
            are_level_stages(gap, add, divide, values, levels, stages) && stages.len() == iterations + 1
                && is_ascending_arrangement(
                stages.last(),
                train::sorted_values(
                    train::levels_after(
                        gap,
                        add,
                        divide,
                        values,
                        train::first_levels(values, levels),
                        iterations,
                    ),
                ),
            ),
{
    let start = train::first_levels(values, levels);
    let stages = Seq::new(
        iterations + 1,
        |r: int| train::levels_after(gap, add, divide, values, start, r as nat),
    );
    law_sorting_arranges(values);
    law_sorting_arranges(stages.last());
    let sorted = train::sorted_values(values);
    assert(stages[0] == start);
    assert forall|i: int| 0 <= i < levels implies {
        let middle = (2 * i + 1) * values.len() / (2 * levels as int);
        #[trigger] stages[0][i] == sorted[if middle < values.len() - 1 {
            middle
        } else {
            values.len() - 1
        }]
    } by {}
    assert forall|r: int| 0 < r < stages.len() implies is_level_round(
        gap,
        add,
        divide,
        values,
        stages[r - 1],
        #[trigger] stages[r],
    ) by {
        lemma_levels_len(gap, add, divide, values, start, (r - 1) as nat);
        lemma_level_round(gap, add, divide, values, stages[r - 1]);
    }
    assert(are_level_stages(gap, add, divide, values, levels, stages));
}

proof fn lemma_levels_len<G, A, V>(gap: G, add: A, divide: V, values: Seq<Score>, levels: Seq<Score>, rounds: nat) where
    G: Fn(Score, Score) -> Score,
    A: Fn(Score, Score) -> Score,
    V: Fn(Score, usize) -> Score,

    ensures
        train::levels_after(gap, add, divide, values, levels, rounds).len() == levels.len(),
    decreases rounds,
{
    if rounds > 0 {
        lemma_levels_len(gap, add, divide, values, levels, (rounds - 1) as nat);
    }
}

/// What is left of samples is, number by number, the difference of each sample and its
/// nearest centroid.
pub proof fn law_residuals_are_differences<D, S>(
    distance: D,
    subtract: S,
    samples: Seq<Seq<Score>>,
    centers: Seq<Seq<Score>>,
    dimension: nat,
    i: int,
    d: int,
) where D: Fn(&[Score], &[Score]) -> Score, S: Fn(Score, Score) -> Score
    requires
        centers.len() > 0,
        forall|k: int| 0 <= k < samples.len() ==> (#[trigger] samples[k]).len() == dimension,
        0 <= i < samples.len(),
        0 <= d < dimension,
    ensures
        train::residuals_of(distance, subtract, samples, centers).len() == samples.len() * dimension,
        exists|c: int| #[trigger]
            is_nearest(distance, centers, samples[i], c) && train::residuals_of(
                distance,
                subtract,
                samples,
                centers,
            )[i * dimension + d] == arith::binary(subtract, samples[i][d], centers[c][d]),
    decreases samples.len(),
{
    let rest = samples.drop_last();
    let n = dimension as int;
    assert forall|k: int| 0 <= k < rest.len() implies (#[trigger] rest[k]).len() == dimension by {
        assert(samples[k].len() == dimension);
    }
    lemma_residuals_len(distance, subtract, rest, centers, dimension);
    assert(samples.len() * n == rest.len() * n + n) by (nonlinear_arith)
        requires
            samples.len() == rest.len() + 1,
    ;
    assert(samples.last() == samples[samples.len() - 1]);
    if i < rest.len() {
        law_residuals_are_differences(distance, subtract, rest, centers, dimension, i, d);
        assert(0 <= i * n + d < rest.len() * n) by (nonlinear_arith)
            requires
                0 <= i < rest.len(),
                0 <= d < n,
        ;
        let c = choose|c: int| #[trigger]
            is_nearest(distance, centers, rest[i], c) && train::residuals_of(distance, subtract, rest, centers)[i
                * dimension + d] == arith::binary(subtract, rest[i][d], centers[c][d]);
        assert(is_nearest(distance, centers, samples[i], c));
    } else {
        let c = train::nearest_center(distance, samples[i], centers);
        law_nearest_center_is_nearest(distance, centers, samples[i], c);
        assert(is_nearest(distance, centers, samples[i], c));
    }
}

proof fn lemma_residuals_len<D, S>(
    distance: D,
    subtract: S,
    samples: Seq<Seq<Score>>,
    centers: Seq<Seq<Score>>,
    dimension: nat,
) where D: Fn(&[Score], &[Score]) -> Score, S: Fn(Score, Score) -> Score
    requires
        forall|k: int| 0 <= k < samples.len() ==> (#[trigger] samples[k]).len() == dimension,
    ensures
        train::residuals_of(distance, subtract, samples, centers).len() == samples.len() * dimension,
    decreases samples.len(),
{
    if samples.len() == 0 {
        assert(0 * dimension == 0) by (nonlinear_arith);
    } else {
        let rest = samples.drop_last();
        assert forall|k: int| 0 <= k < rest.len() implies (#[trigger] rest[k]).len() == dimension by {
            assert(samples[k].len() == dimension);
        }
        lemma_residuals_len(distance, subtract, rest, centers, dimension);
        assert(samples.last() == samples[samples.len() - 1]);
        assert(samples.len() * dimension == rest.len() * dimension + dimension) by (nonlinear_arith)
            requires
                samples.len() == rest.len() + 1,
        ;
    }
}

} // verus!
