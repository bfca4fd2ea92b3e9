//! What encodings hold: which vectors stand in which bucket, and what a bucket adds up.

use vstd::prelude::*;
use vstd::arithmetic::power2::pow2;
use crate::arith;
use crate::muvera;
use crate::muvera::FdeEncoder;
use crate::score;
use crate::score::Score;

verus! {

/// Whether a vector falls into a bucket: its product with each plane is positive where
/// the bucket's number has the bit of that plane, and not positive where it has not.
pub open spec fn falls_into<D: Fn(&[Score], &[Score]) -> Score>(
    dot: D,
    planes: Seq<Seq<Score>>,
    bucket: int,
    v: Seq<Score>,
) -> bool {
    forall|k: int|
        0 <= k < planes.len() ==> ((bucket / pow2(k as nat) as int) % 2 == 1 <==> score::less(
            0,
            arith::measure(dot, v, #[trigger] planes[k]),
        ))
}

/// The lower bits of a number stay when higher ones are added.
proof fn lemma_lower_bit(high: int, low: int, m: nat, k: nat)
    requires
        0 <= low < pow2(m),
        0 <= high,
        k < m,
    ensures
        ((high * pow2(m) + low) / pow2(k) as int) % 2 == (low / pow2(k) as int) % 2,
{
    let d = pow2(k) as int;
    let e = pow2((m - k - 1) as nat) as int;
    vstd::arithmetic::power2::lemma_pow2_pos(k);
    vstd::arithmetic::power2::lemma_pow2_adds(k, (m - k) as nat);
    vstd::arithmetic::power2::lemma_pow2_unfold((m - k) as nat);
    assert(pow2(m) == d * (2 * e));
    assert(high * pow2(m) == (2 * (high * e)) * d) by (nonlinear_arith)
        requires
            pow2(m) == d * (2 * e),
    ;
    let q = low / d;
    let r = low % d;
    vstd::arithmetic::div_mod::lemma_fundamental_div_mod(low, d);
    vstd::arithmetic::div_mod::lemma_mod_bound(low, d);
    assert((2 * (high * e)) * d + low == (2 * (high * e) + q) * d + r) by (nonlinear_arith)
        requires
            low == d * q + r,
    ;
    vstd::arithmetic::div_mod::lemma_fundamental_div_mod_converse(
        high * pow2(m) + low,
        d,
        2 * (high * e) + q,
        r,
    );
    assert((2 * (high * e) + q) % 2 == q % 2);
}

/// A vector has one bucket: the one into which it falls.
pub proof fn law_hash_is_the_bucket<D: Fn(&[Score], &[Score]) -> Score>(
    dot: D,
    planes: Seq<Seq<Score>>,
    bucket: int,
    v: Seq<Score>,
)
    requires
        0 <= bucket < pow2(planes.len()),
    ensures
        muvera::hash_value(dot, v, planes) < pow2(planes.len()),
        muvera::hash_value(dot, v, planes) == bucket <==> falls_into(dot, planes, bucket, v),
    decreases planes.len(),
{
    vstd::arithmetic::power2::lemma2_to64();
    if planes.len() > 0 {
        let rest = planes.drop_last();
        let m = rest.len();
        let p = pow2(m) as int;
        vstd::arithmetic::power2::lemma_pow2_pos(m);
        vstd::arithmetic::power2::lemma_pow2_unfold(planes.len());
        let top = bucket / p;
        let low = bucket % p;
        vstd::arithmetic::div_mod::lemma_fundamental_div_mod(bucket, p);
        vstd::arithmetic::div_mod::lemma_mod_bound(bucket, p);
        assert(0 <= top < 2) by (nonlinear_arith)
            requires
                bucket == p * top + low,
                0 <= low < p,
                0 <= bucket < 2 * p,
        ;
        assert(top == 0 ==> p * top == 0) by (nonlinear_arith);
        assert(top == 1 ==> p * top == p) by (nonlinear_arith);
        law_hash_is_the_bucket(dot, rest, low, v);
        let h = muvera::hash_value(dot, v, rest);
        let positive = score::less(0, arith::measure(dot, v, planes.last()));
        assert(planes.last() == planes[m as int]);
        assert(top % 2 == top);
        assert forall|k: int|
            #![trigger planes[k]]
            0 <= k < m implies (bucket / pow2(k as nat) as int) % 2 == (low / pow2(k as nat) as int) % 2 by {
            lemma_lower_bit(top, low, m, k as nat);
            assert(top * p == p * top) by (nonlinear_arith);
        }
        if falls_into(dot, planes, bucket, v) {
            assert forall|k: int| 0 <= k < m implies ((low / pow2(k as nat) as int) % 2 == 1 <==> score::less(
                0,
                arith::measure(dot, v, #[trigger] rest[k]),
            )) by {
                assert(rest[k] == planes[k]);
            }
            assert(falls_into(dot, rest, low, v));
            assert((bucket / pow2(m) as int) % 2 == 1 <==> score::less(0, arith::measure(dot, v, planes[m as int])));
        }
        if muvera::hash_value(dot, v, planes) == bucket {
            assert(h == low && (positive <==> top == 1));
            assert forall|k: int| 0 <= k < planes.len() implies ((bucket / pow2(k as nat) as int) % 2 == 1
                <==> score::less(0, arith::measure(dot, v, #[trigger] planes[k]))) by {
                if k < m {
                    assert(rest[k] == planes[k]);
                }
            }
        }
    } else {
        assert(pow2(0) == 1);
    }
}

/// The sum of a bucket is the sum of the vectors that are inside, in their order.
proof fn lemma_bucket_sum<A: Fn(Score, Score) -> Score>(
    add: A,
    vectors: Seq<Seq<Score>>,
    hashes: Seq<usize>,
    bucket: int,
    dimension: nat,
    inside: spec_fn(Seq<Score>) -> bool,
    d: int,
    plus: spec_fn(Score, Seq<Score>) -> Score,
)
    requires
        hashes.len() == vectors.len(),
        forall|i: int| 0 <= i < vectors.len() ==> (hashes[i] == bucket <==> inside(#[trigger] vectors[i])),
        forall|s: Score, v: Seq<Score>| #[trigger] plus(s, v) == arith::binary(add, s, v[d]),
        0 <= d < dimension,
    ensures
        muvera::bucket_sum(add, vectors, hashes, bucket, dimension).len() == dimension,
        muvera::bucket_sum(add, vectors, hashes, bucket, dimension)[d] == vectors.filter(inside).fold_left(0, plus),
        muvera::bucket_count(hashes, bucket) == vectors.filter(inside).len(),
    decreases vectors.len(),
{
    reveal(Seq::filter);
    muvera::lemma_bucket_sum_len(add, vectors, hashes, bucket, dimension);
    if vectors.len() > 0 {
        let rest = vectors.drop_last();
        assert forall|i: int| 0 <= i < rest.len() implies (hashes.drop_last()[i] == bucket <==> inside(
            #[trigger] rest[i],
        )) by {
            assert(rest[i] == vectors[i]);
        }
        lemma_bucket_sum(add, rest, hashes.drop_last(), bucket, dimension, inside, d, plus);
        muvera::lemma_bucket_sum_len(add, rest, hashes.drop_last(), bucket, dimension);
        assert(vectors.last() == vectors[vectors.len() - 1]);
        if inside(vectors.last()) {
            assert(vectors.filter(inside).drop_last() =~= rest.filter(inside));
        }
    }
}

/// Where the projection of a bucket on a plane stands among the projections.
proof fn lemma_projection<D: Fn(&[Score], &[Score]) -> Score>(
    dot: D,
    buckets: Seq<Seq<Score>>,
    projection: Seq<Seq<Score>>,
    b: int,
    p: int,
)
    requires
        0 <= b < buckets.len(),
        0 <= p < projection.len(),
    ensures
        muvera::projections(dot, buckets, projection).len() == buckets.len() * projection.len(),
        0 <= b * projection.len() + p < buckets.len() * projection.len(),
        muvera::projections(dot, buckets, projection)[b * projection.len() + p] == arith::measure(
            dot,
            buckets[b],
            projection[p],
        ),
    decreases buckets.len(),
{
    let n = projection.len() as int;
    let rest = buckets.drop_last();
    assert(buckets.len() * n == rest.len() * n + n) by (nonlinear_arith)
        requires
            buckets.len() == rest.len() + 1,
    ;
    if b < rest.len() {
        lemma_projection(dot, rest, projection, b, p);
    } else {
        lemma_projections_len(dot, rest, projection);
    }
}

proof fn lemma_projections_len<D: Fn(&[Score], &[Score]) -> Score>(
    dot: D,
    buckets: Seq<Seq<Score>>,
    projection: Seq<Seq<Score>>,
)
    ensures
        muvera::projections(dot, buckets, projection).len() == buckets.len() * projection.len(),
    decreases buckets.len(),
{
    if buckets.len() == 0 {
        assert(0 * projection.len() == 0) by (nonlinear_arith);
    } else {
        lemma_projections_len(dot, buckets.drop_last(), projection);
        assert(buckets.len() * projection.len() == (buckets.len() - 1) * projection.len() + projection.len())
            by (nonlinear_arith);
    }
}

/// Where the number of a repetition, a bucket and a plane stands in an encoding.
pub open spec fn place(encoder: FdeEncoder, repetition: int, bucket: int, plane: int) -> int {
    (repetition * pow2(encoder.ksim as nat) + bucket) * encoder.projected + plane
}

proof fn lemma_place(encoder: FdeEncoder, repetition: int, bucket: int, plane: int)
    requires
        0 <= bucket < pow2(encoder.ksim as nat),
        0 <= plane < encoder.projected,
        0 <= repetition,
    ensures
        ({
            let n = pow2(encoder.ksim as nat) * encoder.projected as nat;
            &&& place(encoder, repetition, bucket, plane) == n * repetition + (bucket * encoder.projected + plane)
            &&& 0 <= bucket * encoder.projected + plane < n
            &&& n * (repetition + 1) == n * repetition + n
        }),
{
    let k = pow2(encoder.ksim as nat) as int;
    let p = encoder.projected as int;
    assert((repetition * k + bucket) * p + plane == k * p * repetition + (bucket * p + plane)) by (nonlinear_arith);
    assert(0 <= bucket * p + plane < k * p) by (nonlinear_arith)
        requires
            0 <= bucket < k,
            0 <= plane < p,
    ;
    assert(k * p * (repetition + 1) == k * p * repetition + k * p) by (nonlinear_arith);
}

/// An encoding of a query, at a place of one of its repetitions.
proof fn lemma_query_at<D, A>(
    dot: D,
    add: A,
    encoder: FdeEncoder,
    vectors: Seq<Seq<Score>>,
    upto: nat,
    repetition: int,
    bucket: int,
    plane: int,
) where D: Fn(&[Score], &[Score]) -> Score, A: Fn(Score, Score) -> Score
    requires
        encoder.wf(),
        0 <= repetition < upto <= encoder.repetitions@.len(),
        0 <= bucket < pow2(encoder.ksim as nat),
        0 <= plane < encoder.projected,
    ensures
        ({
            let r = encoder.repetitions@[repetition];
            muvera::query_encoding(dot, add, encoder, vectors, upto)[place(encoder, repetition, bucket, plane)]
                == arith::measure(
                dot,
                muvera::bucket_sums(
                    dot,
                    add,
                    vectors,
                    arith::rows(r.hash_planes@),
                    encoder.ksim as nat,
                    encoder.dimension as nat,
                )[bucket],
                r.projection@[plane]@,
            )
        }),
    decreases upto,
{
    let n = pow2(encoder.ksim as nat) * encoder.projected as nat;
    muvera::law_query_encoding_has_the_output_dimension(dot, add, encoder, vectors, (upto - 1) as nat);
    lemma_place(encoder, repetition, bucket, plane);
    if repetition < upto - 1 {
        lemma_query_at(dot, add, encoder, vectors, (upto - 1) as nat, repetition, bucket, plane);
        assert(n * repetition + n <= n * (upto - 1)) by (nonlinear_arith)
            requires
                repetition + 1 <= upto - 1,
        ;
    } else {
        let r = encoder.repetitions@[repetition];
        let sums = muvera::bucket_sums(
            dot,
            add,
            vectors,
            arith::rows(r.hash_planes@),
            encoder.ksim as nat,
            encoder.dimension as nat,
        );
        lemma_projection(dot, sums, arith::rows(r.projection@), bucket, plane);
    }
}

/// An encoding of a query takes in every vector: at the place of a repetition, a bucket
/// and a plane stands the product of that plane and the sum of exactly those of all
/// vectors that fall into the bucket, in their order.
pub proof fn law_query_buckets_add_up_their_vectors<D, A>(
    dot: D,
    add: A,
    encoder: FdeEncoder,
    vectors: Seq<Seq<Score>>,
    repetition: int,
    bucket: int,
    plane: int,
) where D: Fn(&[Score], &[Score]) -> Score, A: Fn(Score, Score) -> Score
    requires
        encoder.wf(),
        0 <= repetition < encoder.repetitions@.len(),
        0 <= bucket < pow2(encoder.ksim as nat),
        0 <= plane < encoder.projected,
    ensures
        ({
            let r = encoder.repetitions@[repetition];
            let inside = |v: Seq<Score>| falls_into(dot, arith::rows(r.hash_planes@), bucket, v);
            let sum = Seq::new(
                encoder.dimension as nat,
                |d: int| vectors.filter(inside).fold_left(0, |s: Score, v: Seq<Score>| arith::binary(add, s, v[d])),
            );
            let encoding = muvera::query_encoding(dot, add, encoder, vectors, encoder.repetitions@.len());
            &&& encoding.len() == encoder.repetitions@.len() * pow2(encoder.ksim as nat) * encoder.projected
            &&& encoding[place(encoder, repetition, bucket, plane)] == arith::measure(dot, sum, r.projection@[plane]@)
        }),
{
    let r = encoder.repetitions@[repetition];
    let planes = arith::rows(r.hash_planes@);
    let dimension = encoder.dimension as nat;
    let inside = |v: Seq<Score>| falls_into(dot, planes, bucket, v);
    let sum = Seq::new(
        dimension,
        |d: int| vectors.filter(inside).fold_left(0, |s: Score, v: Seq<Score>| arith::binary(add, s, v[d])),
    );
    let total = encoder.repetitions@.len();
    muvera::law_query_encoding_has_the_output_dimension(dot, add, encoder, vectors, total);
    assert(pow2(encoder.ksim as nat) * encoder.projected as nat * total == total * pow2(encoder.ksim as nat)
        * encoder.projected) by (nonlinear_arith);
    lemma_query_at(dot, add, encoder, vectors, total, repetition, bucket, plane);
    lemma_bucket_at(dot, add, vectors, planes, bucket, dimension, inside);
    let found = muvera::bucket_sums(dot, add, vectors, planes, encoder.ksim as nat, dimension)[bucket];
    assert(found =~= sum);
}

/// The sum and the count of a bucket.
proof fn lemma_bucket_at<D, A>(
    dot: D,
    add: A,
    vectors: Seq<Seq<Score>>,
    planes: Seq<Seq<Score>>,
    bucket: int,
    dimension: nat,
    inside: spec_fn(Seq<Score>) -> bool,
) where D: Fn(&[Score], &[Score]) -> Score, A: Fn(Score, Score) -> Score
    requires
        planes.len() <= 12,
        0 <= bucket < pow2(planes.len()),
        forall|v: Seq<Score>| #[trigger] inside(v) == falls_into(dot, planes, bucket, v),
    ensures
        ({
            let sums = muvera::bucket_sums(dot, add, vectors, planes, planes.len(), dimension);
            let counts = muvera::bucket_counts(dot, vectors, planes, planes.len());
            &&& sums.len() == pow2(planes.len())
            &&& counts.len() == pow2(planes.len())
            &&& sums[bucket].len() == dimension
            &&& forall|d: int|
                0 <= d < dimension ==> #[trigger] sums[bucket][d] == vectors.filter(inside).fold_left(
                    0,
                    |s: Score, v: Seq<Score>| arith::binary(add, s, v[d]),
                )
            &&& counts[bucket] == vectors.filter(inside).len() as usize
        }),
{
    let hashes = vectors.map_values(|v: Seq<Score>| muvera::hash_value(dot, v, planes) as usize);
    vstd::arithmetic::power2::lemma2_to64();
    if planes.len() < 12 {
        vstd::arithmetic::power2::lemma_pow2_strictly_increases(planes.len(), 12);
    }
    assert forall|i: int| 0 <= i < vectors.len() implies (hashes[i] == bucket <==> inside(#[trigger] vectors[i])) by {
        law_hash_is_the_bucket(dot, planes, bucket, vectors[i]);
    }
    let sums = muvera::bucket_sums(dot, add, vectors, planes, planes.len(), dimension);
    muvera::lemma_bucket_sum_len(add, vectors, hashes, bucket, dimension);
    assert forall|d: int| 0 <= d < dimension implies #[trigger] sums[bucket][d] == vectors.filter(inside).fold_left(
        0,
        |s: Score, v: Seq<Score>| arith::binary(add, s, v[d]),
    ) by {
        lemma_bucket_sum(
            add,
            vectors,
            hashes,
            bucket,
            dimension,
            inside,
            d,
            |s: Score, v: Seq<Score>| arith::binary(add, s, v[d]),
        );
    }
    lemma_bucket_sum(
        add,
        vectors,
        hashes,
        bucket,
        1,
        inside,
        0,
        |s: Score, v: Seq<Score>| arith::binary(add, s, v[0]),
    );
}

/// The numbers from zero up to a number.
pub open spec fn numbers(n: nat) -> Seq<int> {
    Seq::new(n, |k: int| k)
}

/// In how many of their lowest bits two numbers differ.
pub open spec fn differing_bits(a: int, b: int, n: nat) -> nat {
    numbers(n).filter(|k: int| (a / pow2(k as nat) as int) % 2 != (b / pow2(k as nat) as int) % 2).len()
}

proof fn lemma_count_shift(n: nat, p: spec_fn(int) -> bool, q: spec_fn(int) -> bool)
    requires
        forall|k: int| 0 <= k < n ==> #[trigger] q(k) == p(k + 1),
    ensures
        numbers(n + 1).filter(p).len() == (if p(0) {
            1nat
        } else {
            0nat
        }) + numbers(n).filter(q).len(),
    decreases n,
{
    reveal(Seq::filter);
    assert(numbers(n + 1).drop_last() =~= numbers(n));
    if n > 0 {
        lemma_count_shift((n - 1) as nat, p, q);
        assert(numbers(n).drop_last() =~= numbers((n - 1) as nat));
        assert(q(n - 1) == p(n as int));
    } else {
        assert(numbers(0).filter(p) =~= Seq::<int>::empty());
    }
}

/// The distance of two buckets is the number of planes on which they are on different
/// sides.
pub proof fn law_hamming_counts_bits(a: int, b: int, n: nat)
    requires
        0 <= a < pow2(n),
        0 <= b < pow2(n),
    ensures
        muvera::hamming(a, b) == differing_bits(a, b, n),
    decreases n,
{
    let p = |k: int| (a / pow2(k as nat) as int) % 2 != (b / pow2(k as nat) as int) % 2;
    vstd::arithmetic::power2::lemma2_to64();
    if n == 0 {
        reveal(Seq::filter);
        assert(numbers(0).filter(p) =~= Seq::<int>::empty());
    } else {
        let m = (n - 1) as nat;
        let q = |k: int| (a / 2 / pow2(k as nat) as int) % 2 != (b / 2 / pow2(k as nat) as int) % 2;
        vstd::arithmetic::power2::lemma_pow2_unfold(n);
        law_hamming_counts_bits(a / 2, b / 2, m);
        assert forall|k: int| 0 <= k < m implies #[trigger] q(k) == p(k + 1) by {
            vstd::arithmetic::power2::lemma_pow2_pos(k as nat);
            vstd::arithmetic::power2::lemma_pow2_unfold((k + 1) as nat);
            vstd::arithmetic::div_mod::lemma_div_denominator(a, 2, pow2(k as nat) as int);
            vstd::arithmetic::div_mod::lemma_div_denominator(b, 2, pow2(k as nat) as int);
        }
        lemma_count_shift(m, p, q);
        assert(a / 1 == a && b / 1 == b);
        if a <= 0 && b <= 0 {
            reveal_with_fuel(muvera::hamming, 2);
        }
    }
}

/// An encoding of a document, at a place of one of its repetitions.
proof fn lemma_document_at<D, A, V>(
    dot: D,
    add: A,
    average: V,
    encoder: FdeEncoder,
    vectors: Seq<Seq<Score>>,
    upto: nat,
    repetition: int,
    bucket: int,
    plane: int,
) where D: Fn(&[Score], &[Score]) -> Score, A: Fn(Score, Score) -> Score, V: Fn(Score, usize) -> Score
    requires
        encoder.wf(),
        0 <= repetition < upto <= encoder.repetitions@.len(),
        0 <= bucket < pow2(encoder.ksim as nat),
        0 <= plane < encoder.projected,
    ensures
        ({
            let r = encoder.repetitions@[repetition];
            muvera::document_encoding(dot, add, average, encoder, vectors, upto)[place(
                encoder,
                repetition,
                bucket,
                plane,
            )] == arith::measure(
                dot,
                muvera::filled_buckets(dot, add, average, encoder, vectors, arith::rows(r.hash_planes@))[bucket],
                r.projection@[plane]@,
            )
        }),
    decreases upto,
{
    let n = pow2(encoder.ksim as nat) * encoder.projected as nat;
    muvera::law_encoding_has_the_output_dimension(dot, add, average, encoder, vectors, (upto - 1) as nat);
    lemma_place(encoder, repetition, bucket, plane);
    if repetition < upto - 1 {
        lemma_document_at(dot, add, average, encoder, vectors, (upto - 1) as nat, repetition, bucket, plane);
        assert(n * repetition + n <= n * (upto - 1)) by (nonlinear_arith)
            requires
                repetition + 1 <= upto - 1,
        ;
    } else {
        let r = encoder.repetitions@[repetition];
        let buckets = muvera::filled_buckets(dot, add, average, encoder, vectors, arith::rows(r.hash_planes@));
        lemma_projection(dot, buckets, arith::rows(r.projection@), bucket, plane);
    }
}

/// The vectors that fall into a bucket, in their order.
pub open spec fn members<D: Fn(&[Score], &[Score]) -> Score>(
    dot: D,
    planes: Seq<Seq<Score>>,
    vectors: Seq<Seq<Score>>,
    bucket: int,
) -> Seq<Seq<Score>> {
    vectors.filter(|v: Seq<Score>| falls_into(dot, planes, bucket, v))
}

/// The mean of vectors: their sum in their order, averaged over their number.
pub open spec fn mean<A: Fn(Score, Score) -> Score, V: Fn(Score, usize) -> Score>(
    add: A,
    average: V,
    vectors: Seq<Seq<Score>>,
    dimension: nat,
) -> Seq<Score> {
    Seq::new(
        dimension,
        |d: int|
            arith::scaled(
                average,
                vectors.fold_left(0, |s: Score, v: Seq<Score>| arith::binary(add, s, v[d])),
                vectors.len() as usize,
            ),
    )
}

/// Whether a bucket is the one from which an empty one is filled: it has members, no
/// bucket with members is on other sides of fewer planes, and none of the same number
/// comes before it.
pub open spec fn fills<D: Fn(&[Score], &[Score]) -> Score>(
    dot: D,
    planes: Seq<Seq<Score>>,
    vectors: Seq<Seq<Score>>,
    empty: int,
    at: int,
) -> bool {
    &&& 0 <= at < pow2(planes.len())
    &&& members(dot, planes, vectors, at).len() > 0
    &&& forall|b: int|
        0 <= b < pow2(planes.len()) && (#[trigger] members(dot, planes, vectors, b)).len() > 0 ==> {
            ||| differing_bits(empty, at, planes.len()) < differing_bits(empty, b, planes.len())
            ||| differing_bits(empty, at, planes.len()) == differing_bits(empty, b, planes.len()) && at <= b
        }
}

/// An encoding of a document takes in every vector: a bucket with members holds their
/// mean, and an empty one the mean of the nearest bucket that has members, which the
/// first version averages once more where that bucket comes before.
pub proof fn law_document_buckets_hold_means<D, A, V>(
    dot: D,
    add: A,
    average: V,
    encoder: FdeEncoder,
    vectors: Seq<Seq<Score>>,
    repetition: int,
    bucket: int,
    plane: int,
) where D: Fn(&[Score], &[Score]) -> Score, A: Fn(Score, Score) -> Score, V: Fn(Score, usize) -> Score
    requires
        encoder.wf(),
        0 < vectors.len() <= usize::MAX,
        0 <= repetition < encoder.repetitions@.len(),
        0 <= bucket < pow2(encoder.ksim as nat),
        0 <= plane < encoder.projected,
    ensures
        ({
            let r = encoder.repetitions@[repetition];
            let planes = arith::rows(r.hash_planes@);
            let dimension = encoder.dimension as nat;
            let encoding = muvera::document_encoding(
                dot,
                add,
                average,
                encoder,
                vectors,
                encoder.repetitions@.len(),
            );
            let value = encoding[place(encoder, repetition, bucket, plane)];
            let own = members(dot, planes, vectors, bucket);
            &&& encoding.len() == encoder.repetitions@.len() * pow2(encoder.ksim as nat) * encoder.projected
            &&& own.len() > 0 ==> value == arith::measure(
                dot,
                mean(add, average, own, dimension),
                r.projection@[plane]@,
            )
            &&& own.len() == 0 ==> exists|at: int|
                {
                    let near = members(dot, planes, vectors, at);
                    let once = mean(add, average, near, dimension);
                    &&& #[trigger] fills(dot, planes, vectors, bucket, at)
                    &&& value == arith::measure(
                        dot,
                        if encoder.encoding_version == 1 && at < bucket {
                            Seq::new(dimension, |d: int| arith::scaled(average, once[d], near.len() as usize))
                        } else {
                            once
                        },
                        r.projection@[plane]@,
                    )
                }
        }),
{
    let r = encoder.repetitions@[repetition];
    let planes = arith::rows(r.hash_planes@);
    let ksim = encoder.ksim as nat;
    let dimension = encoder.dimension as nat;
    let total = encoder.repetitions@.len();
    muvera::law_encoding_has_the_output_dimension(dot, add, average, encoder, vectors, total);
    assert(pow2(ksim) * encoder.projected as nat * total == total * pow2(ksim) * encoder.projected)
        by (nonlinear_arith);
    lemma_document_at(dot, add, average, encoder, vectors, total, repetition, bucket, plane);
    let sums = muvera::bucket_sums(dot, add, vectors, planes, ksim, dimension);
    let counts = muvera::bucket_counts(dot, vectors, planes, ksim);
    assert forall|b: int| 0 <= b < pow2(ksim) implies counts[b] == (#[trigger] members(dot, planes, vectors, b)).len()
        && (counts[b] > 0 ==> muvera::averages(average, sums[b], counts[b]) == mean(
        add,
        average,
        members(dot, planes, vectors, b),
        dimension,
    )) by {
        let inside = |v: Seq<Score>| falls_into(dot, planes, b, v);
        vectors.lemma_filter_len(inside);
        lemma_bucket_at(dot, add, vectors, planes, b, dimension, inside);
        assert(muvera::averages(average, sums[b], counts[b]) =~= mean(
            add,
            average,
            members(dot, planes, vectors, b),
            dimension,
        ));
    }
    let own = members(dot, planes, vectors, bucket);
    if own.len() == 0 {
        let first = vectors[0];
        let home = muvera::hash_value(dot, first, planes) as int;
        law_hash_is_the_bucket(dot, planes, 0, first);
        law_hash_is_the_bucket(dot, planes, home, first);
        let inside = |v: Seq<Score>| falls_into(dot, planes, home, v);
        vectors.lemma_filter_contains(inside, 0);
        assert(members(dot, planes, vectors, home).contains(first));
        assert(counts[home] > 0);
        let at = lemma_nearest_exists(bucket, counts, counts.len());
        assert(muvera::is_nearest_occupied(bucket, counts, at));
        let source = muvera::fill_source(bucket, counts);
        assert(muvera::is_nearest_occupied(bucket, counts, source));
        assert(fills(dot, planes, vectors, bucket, source)) by {
            assert(counts[source] == members(dot, planes, vectors, source).len());
            law_hamming_counts_bits(bucket, source, ksim);
            assert forall|b: int|
                0 <= b < pow2(planes.len()) && (#[trigger] members(dot, planes, vectors, b)).len() > 0 implies {
                ||| differing_bits(bucket, source, planes.len()) < differing_bits(bucket, b, planes.len())
                ||| differing_bits(bucket, source, planes.len()) == differing_bits(bucket, b, planes.len()) && source
                    <= b
            } by {
                law_hamming_counts_bits(bucket, b, ksim);
                assert(counts[b] > 0);
            }
        }
        let near = members(dot, planes, vectors, source);
        let once = mean(add, average, near, dimension);
        assert(muvera::averages(average, once, counts[source]) =~= Seq::new(
            dimension,
            |d: int| arith::scaled(average, once[d], near.len() as usize),
        ));
    }
}

/// Of the first buckets one is the nearest that is occupied, if any is.
proof fn lemma_nearest_exists(target: int, counts: Seq<usize>, upto: nat) -> (at: int)
    requires
        upto <= counts.len(),
        exists|b: int| 0 <= b < upto && #[trigger] counts[b] > 0,
    ensures
        0 <= at < upto,
        counts[at] > 0,
        forall|b: int|
            0 <= b < upto && #[trigger] counts[b] > 0 ==> muvera::hamming(target, at) <= muvera::hamming(target, b),
        forall|b: int|
            0 <= b < at && #[trigger] counts[b] > 0 ==> muvera::hamming(target, at) < muvera::hamming(target, b),
    decreases upto,
{
    let last = upto - 1;
    if exists|b: int| 0 <= b < last && #[trigger] counts[b] > 0 {
        let before = lemma_nearest_exists(target, counts, last as nat);
        if counts[last] > 0 && muvera::hamming(target, last) < muvera::hamming(target, before) {
            last
        } else {
            before
        }
    } else {
        last
    }
}

} // verus!
