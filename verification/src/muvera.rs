//! Fixed-dimensional encodings of sets of vectors: the vectors are sorted into
//! buckets by the signs of random products, and each bucket is projected.

use vstd::prelude::*;
use vstd::arithmetic::power2::pow2;
use crate::arith;
use crate::config;
use crate::score;
use crate::score::Score;

verus! {

/// The bit pattern of `-1.0`.
pub const MINUS_ONE: Score = 0xbf80_0000;

/// A generator of 64-bit numbers.
pub struct SplitMix64(pub u64);

/// The state that follows a state.
pub open spec fn next_state(state: u64) -> u64 {
    state.wrapping_add(0x9E3779B97F4A7C15)
}

/// The state after `n` steps.
pub open spec fn state_after(state: u64, n: nat) -> u64
    decreases n,
{
    if n == 0 {
        state
    } else {
        next_state(state_after(state, (n - 1) as nat))
    }
}

/// The number that a state yields.
pub open spec fn mixed(state: u64) -> u64 {
    let a = (state ^ (state >> 30)).wrapping_mul(0xBF58476D1CE4E5B9);
    let b = (a ^ (a >> 27)).wrapping_mul(0x94D049BB133111EB);
    b ^ (b >> 31)
}

/// The sign that the `n`-th step from a state draws.
pub open spec fn sign_at(state: u64, n: nat) -> Score {
    if mixed(state_after(state, n + 1)) % 2 == 0 {
        MINUS_ONE
    } else {
        score::ONE
    }
}

/// The sign that the `n`-th step from a state draws, times a positive number.
pub open spec fn scaled_sign_at(state: u64, n: nat, scale: Score) -> Score {
    if mixed(state_after(state, n + 1)) % 2 == 0 {
        score::negated(scale)
    } else {
        scale
    }
}

proof fn lemma_state_after_adds(state: u64, a: nat, b: nat)
    ensures
        state_after(state_after(state, a), b) == state_after(state, a + b),
    decreases b,
{
    if b > 0 {
        lemma_state_after_adds(state, a, (b - 1) as nat);
    }
}

impl SplitMix64 {
    /// The next number.
    pub fn next(&mut self) -> (r: u64)
        ensures
            final(self).0 == next_state(old(self).0),
            r == mixed(final(self).0),
    {
        self.0 = self.0.wrapping_add(0x9E3779B97F4A7C15);
        let mut z: u64 = self.0;
        z = (z ^ (z >> 30)).wrapping_mul(0xBF58476D1CE4E5B9);
        z = (z ^ (z >> 27)).wrapping_mul(0x94D049BB133111EB);
        z ^ (z >> 31)
    }

    /// The next sign: `-1.0` or `1.0`.
    pub fn sign(&mut self) -> (r: Score)
        ensures
            final(self).0 == next_state(old(self).0),
            r == sign_at(old(self).0, 0),
    {
        proof {
            assert(state_after(self.0, 0) == self.0);
            assert(state_after(self.0, 1) == next_state(state_after(self.0, 0)));
        }
        if self.next() % 2 == 0 {
            MINUS_ONE
        } else {
            score::ONE
        }
    }

    /// The next signs, each times `scale`.
    fn signs(&mut self, count: usize, scale: Score) -> (r: Vec<Score>)
        ensures
            final(self).0 == state_after(old(self).0, count as nat),
            r@ == Seq::new(count as nat, |d: int| scaled_sign_at(old(self).0, d as nat, scale)),
    {
        let ghost start = self.0;
        let mut out: Vec<Score> = Vec::with_capacity(count);
        let mut d: usize = 0;
        while d < count
            invariant
                d <= count,
                self.0 == state_after(start, d as nat),
                out@ == Seq::new(d as nat, |k: int| scaled_sign_at(start, k as nat, scale)),
            decreases count - d,
        {
            if self.next() % 2 == 0 {
                out.push(score::negate(scale));
            } else {
                out.push(scale);
            }
            d += 1;
            assert(out@ =~= Seq::new(d as nat, |k: int| scaled_sign_at(start, k as nat, scale)));
        }
        out
    }
}

/// The planes of one repetition.
pub struct Repetition {
    /// The planes whose sides give the bucket.
    pub hash_planes: Vec<Vec<Score>>,
    /// The planes onto which a bucket is projected.
    pub projection: Vec<Vec<Score>>,
}

/// An encoder.
pub struct FdeEncoder {
    pub dimension: usize,
    pub ksim: usize,
    pub projected: usize,
    pub repetitions: Vec<Repetition>,
    pub encoding_version: u32,
}

/// Rows drawn one after another from a state.
pub open spec fn drawn_rows(state: u64, count: nat, dimension: nat, scale: Score) -> Seq<Seq<Score>> {
    Seq::new(
        count,
        |k: int| Seq::new(dimension, |d: int| scaled_sign_at(state_after(state, k as nat * dimension), d as nat, scale)),
    )
}

/// The state at which a repetition starts to draw.
pub open spec fn repetition_state(seed: u64, r: nat, ksim: nat, projected: nat, dimension: nat) -> u64 {
    state_after(seed, r * ((ksim + projected) * dimension))
}

fn draw_rows(rng: &mut SplitMix64, count: usize, dimension: usize, scale: Score) -> (r: Vec<Vec<Score>>)
    ensures
        arith::rows(r@) == drawn_rows(old(rng).0, count as nat, dimension as nat, scale),
        r@.len() == count,
        final(rng).0 == state_after(old(rng).0, count as nat * dimension as nat),
{
    let ghost start = rng.0;
    let mut out: Vec<Vec<Score>> = Vec::with_capacity(count);
    let mut k: usize = 0;
    proof {
        assert(0 * dimension as nat == 0);
    }
    while k < count
        invariant
            k <= count,
            rng.0 == state_after(start, k as nat * dimension as nat),
            arith::rows(out@) == drawn_rows(start, k as nat, dimension as nat, scale),
            out@.len() == k,
        decreases count - k,
    {
        let row: Vec<Score> = rng.signs(dimension, scale);
        proof {
            lemma_state_after_adds(start, k as nat * dimension as nat, dimension as nat);
            assert((k + 1) as nat * dimension as nat == k as nat * dimension as nat + dimension as nat) by (nonlinear_arith);
        }
        let ghost before = arith::rows(out@);
        let ghost drawn = row@;
        out.push(row);
        proof {
            let goal = drawn_rows(start, (k + 1) as nat, dimension as nat, scale);
            assert(drawn =~= goal[k as int]);
            assert forall|j: int| 0 <= j < k implies before[j] == goal[j] by {
                assert(before[j] == drawn_rows(start, k as nat, dimension as nat, scale)[j]);
                assert(before[j] =~= goal[j]);
            }
            assert(arith::rows(out@) =~= goal);
        }
        k += 1;
    }
    out
}

/// How many bits of two numbers differ.
pub open spec fn hamming(a: int, b: int) -> nat
    decreases (if a > b { a } else { b }),
{
    if a <= 0 && b <= 0 {
        0
    } else if a < 0 || b < 0 {
        0
    } else {
        (if a % 2 != b % 2 {
            1nat
        } else {
            0nat
        }) + hamming(a / 2, b / 2)
    }
}

fn hamming_distance(a: usize, b: usize) -> (r: usize)
    ensures
        r == hamming(a as int, b as int),
{
    let mut x: usize = a;
    let mut y: usize = b;
    let mut count: usize = 0;
    while x > 0 || y > 0
        invariant
            count + hamming(x as int, y as int) == hamming(a as int, b as int),
            count + x + y <= a + b,
            count <= a || count <= b || count <= a + b,
            count as int + (if x > y { x as int } else { y as int }) <= (if a > b { a as int } else { b as int }),
        decreases (if x > y { x } else { y }),
    {
        if x % 2 != y % 2 {
            count += 1;
        }
        x = x / 2;
        y = y / 2;
    }
    count
}

/// Whether a bucket is the first of the occupied ones that are nearest.
pub open spec fn is_nearest_occupied(target: int, counts: Seq<usize>, at: int) -> bool {
    &&& 0 <= at < counts.len()
    &&& counts[at] > 0
    &&& forall|b: int| 0 <= b < counts.len() && #[trigger] counts[b] > 0 ==> hamming(target, at) <= hamming(target, b)
    &&& forall|b: int| 0 <= b < at && #[trigger] counts[b] > 0 ==> hamming(target, at) < hamming(target, b)
}

/// The first of the occupied buckets whose numbers differ from `target` in the
/// fewest bits.
pub fn nearest_occupied(target: usize, counts: &[usize]) -> (r: Option<usize>)
    ensures
        match r {
            Some(at) => is_nearest_occupied(target as int, counts@, at as int),
            None => forall|b: int| 0 <= b < counts@.len() ==> #[trigger] counts@[b] == 0,
        },
{
    let mut best: Option<usize> = None;
    let mut least: usize = 0;
    let mut b: usize = 0;
    while b < counts.len()
        invariant
            b <= counts@.len(),
            match best {
                Some(at) => {
                    &&& at < b
                    &&& counts@[at as int] > 0
                    &&& least == hamming(target as int, at as int)
                    &&& forall|k: int|
                        0 <= k < b && #[trigger] counts@[k] > 0 ==> least <= hamming(target as int, k)
                    &&& forall|k: int| 0 <= k < at && #[trigger] counts@[k] > 0 ==> least < hamming(target as int, k)
                },
                None => forall|k: int| 0 <= k < b ==> #[trigger] counts@[k] == 0,
            },
        decreases counts@.len() - b,
    {
        if counts[b] > 0 {
            let distance: usize = hamming_distance(target, b);
            match best {
                None => {
                    best = Some(b);
                    least = distance;
                },
                Some(_) => {
                    if distance < least {
                        best = Some(b);
                        least = distance;
                    }
                },
            }
        }
        b += 1;
    }
    best
}

/// The occupied bucket from which an empty one is filled.
pub open spec fn fill_source(target: int, counts: Seq<usize>) -> int {
    choose|at: int| is_nearest_occupied(target, counts, at)
}

proof fn lemma_fill_source(target: int, counts: Seq<usize>, at: int)
    requires
        is_nearest_occupied(target, counts, at),
    ensures
        fill_source(target, counts) == at,
{
    let other = fill_source(target, counts);
    assert(is_nearest_occupied(target, counts, other));
    if other < at {
        assert(counts[other] > 0);
    }
    if at < other {
        assert(counts[at] > 0);
    }
}

/// The bucket of a vector: a bit for each plane, set where the product is
/// positive.
pub open spec fn hash_value<D: Fn(&[Score], &[Score]) -> Score>(dot: D, v: Seq<Score>, planes: Seq<Seq<Score>>) -> nat
    decreases planes.len(),
{
    if planes.len() == 0 {
        0
    } else {
        hash_value(dot, v, planes.drop_last()) + if score::less(0, arith::measure(dot, v, planes.last())) {
            pow2((planes.len() - 1) as nat)
        } else {
            0nat
        }
    }
}

/// The bucket of a vector.
pub fn hash<D: Fn(&[Score], &[Score]) -> Score>(dot: &D, v: &[Score], planes: &[Vec<Score>]) -> (r: usize)
    requires
        arith::is_measure(*dot),
        planes@.len() <= 12,
    ensures
        r == hash_value(*dot, v@, arith::rows(planes@)),
        r < pow2(planes@.len()),
{
    let ghost rows = arith::rows(planes@);
    let mut bits: usize = 0;
    let mut i: usize = 0;
    proof {
        vstd::arithmetic::power2::lemma2_to64();
        assert(rows.take(0) =~= Seq::<Seq<Score>>::empty());
    }
    while i < planes.len()
        invariant
            arith::is_measure(*dot),
            i <= planes@.len() <= 12,
            rows == arith::rows(planes@),
            bits == hash_value(*dot, v@, rows.take(i as int)),
            bits < pow2(i as nat),
        decreases planes@.len() - i,
    {
        let product: Score = arith::apply_measure(dot, v, planes[i].as_slice());
        let place: usize = config::power_of_two(i);
        proof {
            assert(rows.take(i + 1).drop_last() =~= rows.take(i as int));
            assert(rows.take(i + 1).last() == rows[i as int]);
            vstd::arithmetic::power2::lemma_pow2_unfold((i + 1) as nat);
            vstd::arithmetic::power2::lemma2_to64();
            if i < 12 {
                vstd::arithmetic::power2::lemma_pow2_strictly_increases(i as nat, 12);
            }
        }
        if score::is_less(0, product) {
            bits = bits + place;
        }
        i += 1;
    }
    assert(rows.take(i as int) =~= rows);
    bits
}

/// Two vectors added number by number.
pub open spec fn added<A: Fn(Score, Score) -> Score>(add: A, a: Seq<Score>, b: Seq<Score>) -> Seq<Score> {
    Seq::new(a.len(), |d: int| arith::binary(add, a[d], b[d]))
}

/// How many of the vectors are in a bucket.
pub open spec fn bucket_count(hashes: Seq<usize>, bucket: int) -> nat
    decreases hashes.len(),
{
    if hashes.len() == 0 {
        0
    } else {
        bucket_count(hashes.drop_last(), bucket) + if hashes.last() == bucket {
            1nat
        } else {
            0nat
        }
    }
}

/// The sum of the vectors in a bucket, added up in their order from zero.
pub open spec fn bucket_sum<A: Fn(Score, Score) -> Score>(
    add: A,
    vectors: Seq<Seq<Score>>,
    hashes: Seq<usize>,
    bucket: int,
    dimension: nat,
) -> Seq<Score>
    decreases vectors.len(),
{
    if vectors.len() == 0 {
        Seq::new(dimension, |d: int| 0u32)
    } else {
        let before = bucket_sum(add, vectors.drop_last(), hashes.drop_last(), bucket, dimension);
        if hashes.last() == bucket {
            added(add, before, vectors.last())
        } else {
            before
        }
    }
}

pub proof fn lemma_bucket_sum_len<A: Fn(Score, Score) -> Score>(
    add: A,
    vectors: Seq<Seq<Score>>,
    hashes: Seq<usize>,
    bucket: int,
    dimension: nat,
)
    ensures
        bucket_sum(add, vectors, hashes, bucket, dimension).len() == dimension,
    decreases vectors.len(),
{
    if vectors.len() > 0 {
        lemma_bucket_sum_len(add, vectors.drop_last(), hashes.drop_last(), bucket, dimension);
    }
}

pub proof fn lemma_bucket_count_bound(hashes: Seq<usize>, bucket: int)
    ensures
        bucket_count(hashes, bucket) <= hashes.len(),
    decreases hashes.len(),
{
    if hashes.len() > 0 {
        lemma_bucket_count_bound(hashes.drop_last(), bucket);
    }
}

/// Every number of a vector averaged over a count.
pub open spec fn averages<V: Fn(Score, usize) -> Score>(f: V, a: Seq<Score>, n: usize) -> Seq<Score> {
    Seq::new(a.len(), |d: int| arith::scaled(f, a[d], n))
}

pub(crate) fn averages_of<V: Fn(Score, usize) -> Score>(f: &V, a: &Vec<Score>, n: usize) -> (r: Vec<Score>)
    requires
        arith::is_scaling(*f),
    ensures
        r@ == averages(*f, a@, n),
{
    let mut out: Vec<Score> = Vec::with_capacity(a.len());
    let mut d: usize = 0;
    while d < a.len()
        invariant
            arith::is_scaling(*f),
            d <= a@.len(),
            out@ == averages(*f, a@, n).take(d as int),
        decreases a@.len() - d,
    {
        out.push(arith::apply_scaling(f, a[d], n));
        d += 1;
        assert(out@ =~= averages(*f, a@, n).take(d as int));
    }
    assert(out@ =~= averages(*f, a@, n));
    out
}

/// The buckets of a document: each occupied one averaged; each empty one filled
/// with the average of the nearest occupied one.
///
/// The first version averages one after another, so that a bucket filled from an
/// earlier one is averaged twice; the second averages each once.
pub open spec fn filled<V: Fn(Score, usize) -> Score>(
    average: V,
    version: u32,
    sums: Seq<Seq<Score>>,
    counts: Seq<usize>,
    bucket: int,
) -> Seq<Score> {
    if counts[bucket] > 0 {
        averages(average, sums[bucket], counts[bucket])
    } else if exists|at: int| is_nearest_occupied(bucket, counts, at) {
        let at = fill_source(bucket, counts);
        let once = averages(average, sums[at], counts[at]);
        if version == 1 && at < bucket {
            averages(average, once, counts[at])
        } else {
            once
        }
    } else {
        sums[bucket]
    }
}

/// The sums of the vectors in the buckets of one repetition.
pub open spec fn bucket_sums<D: Fn(&[Score], &[Score]) -> Score, A: Fn(Score, Score) -> Score>(
    dot: D,
    add: A,
    vectors: Seq<Seq<Score>>,
    planes: Seq<Seq<Score>>,
    ksim: nat,
    dimension: nat,
) -> Seq<Seq<Score>> {
    let hashes = vectors.map_values(|v: Seq<Score>| hash_value(dot, v, planes) as usize);
    Seq::new(pow2(ksim), |b: int| bucket_sum(add, vectors, hashes, b, dimension))
}

/// How many vectors are in the buckets of one repetition.
pub open spec fn bucket_counts<D: Fn(&[Score], &[Score]) -> Score>(
    dot: D,
    vectors: Seq<Seq<Score>>,
    planes: Seq<Seq<Score>>,
    ksim: nat,
) -> Seq<usize> {
    let hashes = vectors.map_values(|v: Seq<Score>| hash_value(dot, v, planes) as usize);
    Seq::new(pow2(ksim), |b: int| bucket_count(hashes, b) as usize)
}

/// The projections of buckets, bucket after bucket.
pub open spec fn projections<D: Fn(&[Score], &[Score]) -> Score>(
    dot: D,
    buckets: Seq<Seq<Score>>,
    projection: Seq<Seq<Score>>,
) -> Seq<Score>
    decreases buckets.len(),
{
    if buckets.len() == 0 {
        Seq::empty()
    } else {
        projections(dot, buckets.drop_last(), projection) + projection.map_values(
            |plane: Seq<Score>| arith::measure(dot, buckets.last(), plane),
        )
    }
}

/// The encoding of a query: the projected sums of the buckets of each repetition
/// in turn.
pub open spec fn query_encoding<D: Fn(&[Score], &[Score]) -> Score, A: Fn(Score, Score) -> Score>(
    dot: D,
    add: A,
    encoder: FdeEncoder,
    vectors: Seq<Seq<Score>>,
    repetitions: nat,
) -> Seq<Score>
    decreases repetitions,
{
    if repetitions == 0 {
        Seq::empty()
    } else {
        let r = encoder.repetitions@[repetitions - 1];
        let planes = arith::rows(r.hash_planes@);
        query_encoding(dot, add, encoder, vectors, (repetitions - 1) as nat) + projections(
            dot,
            bucket_sums(dot, add, vectors, planes, encoder.ksim as nat, encoder.dimension as nat),
            arith::rows(r.projection@),
        )
    }
}

/// The filled buckets of a document under one repetition.
pub open spec fn filled_buckets<D, A, V>(
    dot: D,
    add: A,
    average: V,
    encoder: FdeEncoder,
    vectors: Seq<Seq<Score>>,
    planes: Seq<Seq<Score>>,
) -> Seq<Seq<Score>> where
    D: Fn(&[Score], &[Score]) -> Score,
    A: Fn(Score, Score) -> Score,
    V: Fn(Score, usize) -> Score,
 {
    let sums = bucket_sums(dot, add, vectors, planes, encoder.ksim as nat, encoder.dimension as nat);
    let counts = bucket_counts(dot, vectors, planes, encoder.ksim as nat);
    Seq::new(pow2(encoder.ksim as nat), |b: int| filled(average, encoder.encoding_version, sums, counts, b))
}

/// The encoding of a document: the projected averages of the buckets of each
/// repetition in turn.
pub open spec fn document_encoding<D, A, V>(
    dot: D,
    add: A,
    average: V,
    encoder: FdeEncoder,
    vectors: Seq<Seq<Score>>,
    repetitions: nat,
) -> Seq<Score> where
    D: Fn(&[Score], &[Score]) -> Score,
    A: Fn(Score, Score) -> Score,
    V: Fn(Score, usize) -> Score,

    decreases repetitions,
{
    if repetitions == 0 {
        Seq::empty()
    } else {
        let r = encoder.repetitions@[repetitions - 1];
        document_encoding(dot, add, average, encoder, vectors, (repetitions - 1) as nat) + projections(
            dot,
            filled_buckets(dot, add, average, encoder, vectors, arith::rows(r.hash_planes@)),
            arith::rows(r.projection@),
        )
    }
}

/// A vector with another added to it.
pub(crate) fn add_into<A: Fn(Score, Score) -> Score>(add: &A, target: &Vec<Score>, value: &Vec<Score>) -> (r: Vec<Score>)
    requires
        arith::is_binary(*add),
        target@.len() == value@.len(),
    ensures
        r@ == added(*add, target@, value@),
{
    let mut out: Vec<Score> = Vec::with_capacity(target.len());
    let mut d: usize = 0;
    while d < target.len()
        invariant
            arith::is_binary(*add),
            target@.len() == value@.len(),
            d <= target@.len(),
            out@ == added(*add, target@, value@).take(d as int),
        decreases target@.len() - d,
    {
        out.push(arith::apply_binary(add, target[d], value[d]));
        d += 1;
        assert(out@ =~= added(*add, target@, value@).take(d as int));
    }
    assert(out@ =~= added(*add, target@, value@));
    out
}

impl FdeEncoder {
    /// Whether the planes have the shape that the encoder's numbers give, and an
    /// encoding can be held.
    pub open spec fn wf(&self) -> bool {
        &&& self.ksim <= 12
        &&& self.encoding_version == 1 || self.encoding_version == 2
        &&& pow2(self.ksim as nat) * self.projected as nat * self.repetitions@.len() <= usize::MAX
        &&& forall|r: int|
            0 <= r < self.repetitions@.len() ==> {
                &&& (#[trigger] self.repetitions@[r]).hash_planes@.len() == self.ksim
                &&& self.repetitions@[r].projection@.len() == self.projected
            }
    }

    /// The encoder of the current version.
    ///
    /// `scale` is the number by which projections are scaled,
    /// `1.0 / sqrt(projected)`.
    pub fn new(dimension: usize, ksim: usize, projected: usize, repetitions: usize, seed: u64, scale: Score) -> (r: Self)
        requires
            ksim <= 12,
            pow2(ksim as nat) * projected as nat * repetitions as nat <= usize::MAX,
        ensures
            r.wf(),
            r.encoding_version == 2,
            r.drawn_from(dimension as nat, ksim as nat, projected as nat, repetitions as nat, seed, scale),
    {
        Self::with_version(dimension, ksim, projected, repetitions, seed, 2, scale)
    }

    /// Whether the planes are those that a seed draws, in this order: for each
    /// repetition first the planes that give the bucket, then the projections.
    pub open spec fn drawn_from(
        &self,
        dimension: nat,
        ksim: nat,
        projected: nat,
        repetitions: nat,
        seed: u64,
        scale: Score,
    ) -> bool {
        &&& self.dimension == dimension
        &&& self.ksim == ksim
        &&& self.projected == projected
        &&& self.repetitions@.len() == repetitions
        &&& forall|r: int|
            0 <= r < repetitions ==> {
                let start = repetition_state(seed, r as nat, ksim, projected, dimension);
                &&& arith::rows((#[trigger] self.repetitions@[r]).hash_planes@) == drawn_rows(
                    start,
                    ksim,
                    dimension,
                    score::ONE,
                )
                &&& arith::rows(self.repetitions@[r].projection@) == drawn_rows(
                    state_after(start, ksim * dimension),
                    projected,
                    dimension,
                    scale,
                )
            }
    }

    /// An encoder of a version.
    pub fn with_version(
        dimension: usize,
        ksim: usize,
        projected: usize,
        repetitions: usize,
        seed: u64,
        version: u32,
        scale: Score,
    ) -> (r: Self)
        requires
            version == 1 || version == 2,
            ksim <= 12,
            pow2(ksim as nat) * projected as nat * repetitions as nat <= usize::MAX,
        ensures
            r.wf(),
            r.encoding_version == version,
            r.drawn_from(dimension as nat, ksim as nat, projected as nat, repetitions as nat, seed, scale),
    {
        let ghost dim = dimension as nat;
        let ghost k = ksim as nat;
        let ghost p = projected as nat;
        let mut rng = SplitMix64(seed);
        let mut out: Vec<Repetition> = Vec::with_capacity(repetitions);
        let mut r: usize = 0;
        proof {
            assert(0 * ((k + p) * dim) == 0) by (nonlinear_arith);
        }
        while r < repetitions
            invariant
                r <= repetitions,
                dim == dimension as nat,
                k == ksim as nat,
                p == projected as nat,
                rng.0 == repetition_state(seed, r as nat, k, p, dim),
                out@.len() == r,
                forall|i: int|
                    0 <= i < r ==> {
                        let start = repetition_state(seed, i as nat, k, p, dim);
                        &&& (#[trigger] out@[i]).hash_planes@.len() == ksim
                        &&& out@[i].projection@.len() == projected
                        &&& arith::rows(out@[i].hash_planes@) == drawn_rows(start, k, dim, score::ONE)
                        &&& arith::rows(out@[i].projection@) == drawn_rows(state_after(start, k * dim), p, dim, scale)
                    },
            decreases repetitions - r,
        {
            let hash_planes: Vec<Vec<Score>> = draw_rows(&mut rng, ksim, dimension, score::ONE);
            let projection: Vec<Vec<Score>> = draw_rows(&mut rng, projected, dimension, scale);
            proof {
                let n = r as nat * ((k + p) * dim);
                lemma_state_after_adds(seed, n, k * dim);
                lemma_state_after_adds(seed, n + k * dim, p * dim);
                assert(n + k * dim + p * dim == (r + 1) as nat * ((k + p) * dim)) by (nonlinear_arith)
                    requires
                        n == r as nat * ((k + p) * dim),
                ;
            }
            out.push(Repetition { hash_planes, projection });
            r += 1;
        }
        FdeEncoder { dimension, ksim, projected, repetitions: out, encoding_version: version }
    }

    /// The version of the encodings.
    pub fn encoding_version(&self) -> (r: u32)
        ensures
            r == self.encoding_version,
    {
        self.encoding_version
    }

    /// The dimension of the encodings.
    pub fn output_dimension(&self) -> (r: usize)
        requires
            self.wf(),
        ensures
            r == pow2(self.ksim as nat) * self.projected as nat * self.repetitions@.len(),
    {
        if self.repetitions.len() == 0 {
            proof {
                assert(pow2(self.ksim as nat) * self.projected as nat * self.repetitions@.len() == 0) by (nonlinear_arith)
                    requires
                        self.repetitions@.len() == 0,
                ;
            }
            return 0;
        }
        let buckets: usize = config::power_of_two(self.ksim);
        proof {
            let a = pow2(self.ksim as nat);
            let b = self.projected as nat;
            let c = self.repetitions@.len();
            assert(a * b <= a * b * c) by (nonlinear_arith)
                requires
                    c >= 1,
            ;
        }
        buckets * self.projected * self.repetitions.len()
    }

    /// Encodes a query: its buckets hold sums.
    ///
    /// `dot` gives the product of two vectors, `add` the sum of two numbers.
    pub fn encode_query<D, A>(&self, v: &[Vec<Score>], dot: &D, add: &A) -> (r: Vec<Score>) where
        D: Fn(&[Score], &[Score]) -> Score,
        A: Fn(Score, Score) -> Score,

        requires
            self.wf(),
            arith::is_measure(*dot),
            arith::is_binary(*add),
            forall|i: int| 0 <= i < v@.len() ==> (#[trigger] v@[i])@.len() == self.dimension,
        ensures
            r@ == query_encoding(*dot, *add, *self, arith::rows(v@), self.repetitions@.len()),
    {
        let ghost rows = arith::rows(v@);
        let mut output: Vec<Score> = Vec::new();
        let mut r: usize = 0;
        while r < self.repetitions.len()
            invariant
                self.wf(),
                arith::is_measure(*dot),
                arith::is_binary(*add),
                rows == arith::rows(v@),
                forall|i: int| 0 <= i < v@.len() ==> (#[trigger] v@[i])@.len() == self.dimension,
                r <= self.repetitions@.len(),
                output@ == query_encoding(*dot, *add, *self, rows, r as nat),
            decreases self.repetitions@.len() - r,
        {
            let repetition: &Repetition = &self.repetitions[r];
            let (sums, _): (Vec<Vec<Score>>, Vec<usize>) = self.sum_buckets(v, repetition, dot, add);
            Self::project_into(&mut output, &sums, &repetition.projection, dot);
            r += 1;
        }
        output
    }

    /// Encodes a document: its buckets hold averages, and none is empty.
    ///
    /// `dot` gives the product of two vectors, `add` the sum of two numbers. The
    /// first version averages by `divide`, which gives `x / n`, the second by
    /// `shrink`, which gives `x * (1.0 / n)`.
    pub fn encode_document<D, A, V, W>(&self, v: &[Vec<Score>], dot: &D, add: &A, divide: &V, shrink: &W) -> (r: Vec<
        Score,
    >) where
        D: Fn(&[Score], &[Score]) -> Score,
        A: Fn(Score, Score) -> Score,
        V: Fn(Score, usize) -> Score,
        W: Fn(Score, usize) -> Score,

        requires
            self.wf(),
            arith::is_measure(*dot),
            arith::is_binary(*add),
            arith::is_scaling(*divide),
            arith::is_scaling(*shrink),
            forall|i: int| 0 <= i < v@.len() ==> (#[trigger] v@[i])@.len() == self.dimension,
        ensures
            self.encoding_version == 1 ==> r@ == document_encoding(
                *dot,
                *add,
                *divide,
                *self,
                arith::rows(v@),
                self.repetitions@.len(),
            ),
            self.encoding_version == 2 ==> r@ == document_encoding(
                *dot,
                *add,
                *shrink,
                *self,
                arith::rows(v@),
                self.repetitions@.len(),
            ),
    {
        if self.encoding_version == 1 {
            self.encode(v, dot, add, divide)
        } else {
            self.encode(v, dot, add, shrink)
        }
    }

    fn encode<D, A, V>(&self, vectors: &[Vec<Score>], dot: &D, add: &A, average: &V) -> (r: Vec<Score>) where
        D: Fn(&[Score], &[Score]) -> Score,
        A: Fn(Score, Score) -> Score,
        V: Fn(Score, usize) -> Score,

        requires
            self.wf(),
            arith::is_measure(*dot),
            arith::is_binary(*add),
            arith::is_scaling(*average),
            forall|i: int| 0 <= i < vectors@.len() ==> (#[trigger] vectors@[i])@.len() == self.dimension,
        ensures
            r@ == document_encoding(*dot, *add, *average, *self, arith::rows(vectors@), self.repetitions@.len()),
    {
        let ghost rows = arith::rows(vectors@);
        let mut output: Vec<Score> = Vec::new();
        let mut r: usize = 0;
        while r < self.repetitions.len()
            invariant
                self.wf(),
                arith::is_measure(*dot),
                arith::is_binary(*add),
                arith::is_scaling(*average),
                rows == arith::rows(vectors@),
                forall|i: int| 0 <= i < vectors@.len() ==> (#[trigger] vectors@[i])@.len() == self.dimension,
                r <= self.repetitions@.len(),
                output@ == document_encoding(*dot, *add, *average, *self, rows, r as nat),
            decreases self.repetitions@.len() - r,
        {
            let repetition: &Repetition = &self.repetitions[r];
            let (sums, counts): (Vec<Vec<Score>>, Vec<usize>) = self.sum_buckets(vectors, repetition, dot, add);
            assert(arith::rows(sums@).len() == sums@.len());
            let buckets: Vec<Vec<Score>> = self.fill_buckets(sums, &counts, average);
            assert(arith::rows(buckets@) =~= filled_buckets(
                *dot,
                *add,
                *average,
                *self,
                rows,
                arith::rows(repetition.hash_planes@),
            ));
            Self::project_into(&mut output, &buckets, &repetition.projection, dot);
            r += 1;
        }
        output
    }

    /// The sums of the vectors in each bucket, and how many there are.
    fn sum_buckets<D, A>(&self, vectors: &[Vec<Score>], repetition: &Repetition, dot: &D, add: &A) -> (r: (
        Vec<Vec<Score>>,
        Vec<usize>,
    )) where D: Fn(&[Score], &[Score]) -> Score, A: Fn(Score, Score) -> Score
        requires
            self.ksim <= 12,
            repetition.hash_planes@.len() == self.ksim,
            arith::is_measure(*dot),
            arith::is_binary(*add),
            forall|i: int| 0 <= i < vectors@.len() ==> (#[trigger] vectors@[i])@.len() == self.dimension,
        ensures
            arith::rows(r.0@) == bucket_sums(
                *dot,
                *add,
                arith::rows(vectors@),
                arith::rows(repetition.hash_planes@),
                self.ksim as nat,
                self.dimension as nat,
            ),
            r.1@ == bucket_counts(
                *dot,
                arith::rows(vectors@),
                arith::rows(repetition.hash_planes@),
                self.ksim as nat,
            ),
    {
        let buckets: usize = config::power_of_two(self.ksim);
        let ghost rows = arith::rows(vectors@);
        let ghost planes = arith::rows(repetition.hash_planes@);
        let ghost hashes = rows.map_values(|v: Seq<Score>| hash_value(*dot, v, planes) as usize);
        let ghost dim = self.dimension as nat;
        let mut sums: Vec<Vec<Score>> = Vec::with_capacity(buckets);
        let mut b: usize = 0;
        while b < buckets
            invariant
                b <= buckets,
                sums@.len() == b,
                forall|k: int|
                    0 <= k < b ==> (#[trigger] sums@[k])@ == Seq::new(self.dimension as nat, |d: int| 0u32),
            decreases buckets - b,
        {
            let zeros: Vec<Score> = vec![0; self.dimension];
            assert(zeros@ =~= Seq::new(self.dimension as nat, |d: int| 0u32));
            sums.push(zeros);
            b += 1;
        }
        let mut counts: Vec<usize> = vec![0; buckets];
        let mut i: usize = 0;
        assert(rows.take(0) =~= Seq::<Seq<Score>>::empty());
        assert(hashes.take(0) =~= Seq::<usize>::empty());
        while i < vectors.len()
            invariant
                self.ksim <= 12,
                buckets == pow2(self.ksim as nat),
                repetition.hash_planes@.len() == self.ksim,
                arith::is_measure(*dot),
                arith::is_binary(*add),
                forall|k: int| 0 <= k < vectors@.len() ==> (#[trigger] vectors@[k])@.len() == self.dimension,
                dim == self.dimension as nat,
                rows == arith::rows(vectors@),
                planes == arith::rows(repetition.hash_planes@),
                hashes == rows.map_values(|v: Seq<Score>| hash_value(*dot, v, planes) as usize),
                i <= vectors@.len(),
                sums@.len() == buckets,
                counts@.len() == buckets,
                forall|k: int|
                    0 <= k < buckets ==> (#[trigger] sums@[k])@ == bucket_sum(
                        *add,
                        rows.take(i as int),
                        hashes.take(i as int),
                        k,
                        dim,
                    ),
                forall|k: int| 0 <= k < buckets ==> #[trigger] counts@[k] == bucket_count(hashes.take(i as int), k),
            decreases vectors@.len() - i,
        {
            let vector: &Vec<Score> = &vectors[i];
            let bucket: usize = hash(dot, vector.as_slice(), repetition.hash_planes.as_slice());
            let ghost prior = sums@;
            let ghost prior_counts = counts@;
            proof {
                assert(hashes[i as int] == bucket);
                assert(rows.take(i + 1).drop_last() =~= rows.take(i as int));
                assert(hashes.take(i + 1).drop_last() =~= hashes.take(i as int));
                assert(rows.take(i + 1).last() == vector@);
                assert(hashes.take(i + 1).last() == bucket);
                lemma_bucket_sum_len(*add, rows.take(i as int), hashes.take(i as int), bucket as int, dim);
                lemma_bucket_count_bound(hashes.take(i as int), bucket as int);
                assert(sums@[bucket as int]@.len() == dim);
            }
            counts.set(bucket, counts[bucket] + 1);
            let fresh: Vec<Score> = add_into(add, &sums[bucket], vector);
            sums.set(bucket, fresh);
            proof {
                assert forall|k: int| 0 <= k < buckets implies (#[trigger] sums@[k])@ == bucket_sum(
                    *add,
                    rows.take(i + 1),
                    hashes.take(i + 1),
                    k,
                    dim,
                ) by {
                    if k != bucket {
                        assert(sums@[k] == prior[k]);
                    }
                }
                assert forall|k: int| 0 <= k < buckets implies #[trigger] counts@[k] == bucket_count(hashes.take(i + 1), k) by {
                    if k != bucket {
                        assert(counts@[k] == prior_counts[k]);
                    }
                }
            }
            i += 1;
        }
        proof {
            assert(rows.take(i as int) =~= rows);
            assert(hashes.take(i as int) =~= hashes);
            let goal = bucket_sums(*dot, *add, rows, planes, self.ksim as nat, dim);
            assert forall|k: int| 0 <= k < buckets implies arith::rows(sums@)[k] == goal[k] by {
                assert(arith::rows(sums@)[k] == sums@[k]@);
            }
            assert(arith::rows(sums@) =~= goal);
            assert(counts@ =~= bucket_counts(*dot, rows, planes, self.ksim as nat));
        }
        (sums, counts)
    }

    /// Averages the occupied buckets and fills the empty ones.
    fn fill_buckets<V: Fn(Score, usize) -> Score>(&self, sums: Vec<Vec<Score>>, counts: &Vec<usize>, average: &V) -> (r: Vec<
        Vec<Score>,
    >)
        requires
            arith::is_scaling(*average),
            sums@.len() == counts@.len(),
        ensures
            arith::rows(r@) == Seq::new(
                counts@.len(),
                |b: int| filled(*average, self.encoding_version, arith::rows(sums@), counts@, b),
            ),
    {
        let ghost raw = arith::rows(sums@);
        let ghost goal = Seq::new(counts@.len(), |b: int| filled(*average, self.encoding_version, raw, counts@, b));
        let mut out: Vec<Vec<Score>> = Vec::with_capacity(sums.len());
        let mut b: usize = 0;
        while b < counts.len()
            invariant
                arith::is_scaling(*average),
                raw == arith::rows(sums@),
                sums@.len() == counts@.len(),
                goal == Seq::new(counts@.len(), |k: int| filled(*average, self.encoding_version, raw, counts@, k)),
                b <= counts@.len(),
                arith::rows(out@) == goal.take(b as int),
            decreases counts@.len() - b,
        {
            let bucket: Vec<Score> = if counts[b] > 0 {
                averages_of(average, &sums[b], counts[b])
            } else {
                match nearest_occupied(b, counts.as_slice()) {
                    Some(at) => {
                        proof {
                            lemma_fill_source(b as int, counts@, at as int);
                            assert(is_nearest_occupied(b as int, counts@, at as int));
                        }
                        let once: Vec<Score> = averages_of(average, &sums[at], counts[at]);
                        if self.encoding_version == 1 && at < b {
                            averages_of(average, &once, counts[at])
                        } else {
                            once
                        }
                    },
                    None => {
                        assert(forall|at: int| !is_nearest_occupied(b as int, counts@, at));
                        let copy: Vec<Score> = sums[b].clone();
                        assert(copy@ =~= sums@[b as int]@);
                        copy
                    },
                }
            };
            let ghost before = arith::rows(out@);
            let ghost fresh = bucket@;
            assert(fresh == goal[b as int]);
            out.push(bucket);
            proof {
                let after = arith::rows(out@);
                assert(after =~= before.push(fresh));
                assert(goal.take(b + 1) =~= goal.take(b as int).push(goal[b as int]));
            }
            b += 1;
        }
        assert(goal.take(b as int) =~= goal);
        out
    }

    /// Appends the projections of buckets, bucket after bucket.
    fn project_into<D: Fn(&[Score], &[Score]) -> Score>(
        output: &mut Vec<Score>,
        buckets: &Vec<Vec<Score>>,
        projection: &Vec<Vec<Score>>,
        dot: &D,
    )
        requires
            arith::is_measure(*dot),
        ensures
            final(output)@ == old(output)@ + projections(*dot, arith::rows(buckets@), arith::rows(projection@)),
    {
        let ghost start = output@;
        let ghost rows = arith::rows(buckets@);
        let ghost planes = arith::rows(projection@);
        let mut b: usize = 0;
        assert(rows.take(0) =~= Seq::<Seq<Score>>::empty());
        while b < buckets.len()
            invariant
                arith::is_measure(*dot),
                rows == arith::rows(buckets@),
                planes == arith::rows(projection@),
                b <= buckets@.len(),
                output@ == start + projections(*dot, rows.take(b as int), planes),
            decreases buckets@.len() - b,
        {
            let ghost before = output@;
            let ghost row = rows[b as int];
            let ghost all = planes.map_values(|plane: Seq<Score>| arith::measure(*dot, row, plane));
            let mut p: usize = 0;
            while p < projection.len()
                invariant
                    arith::is_measure(*dot),
                    planes == arith::rows(projection@),
                    b < buckets@.len(),
                    row == buckets@[b as int]@,
                    all == planes.map_values(|plane: Seq<Score>| arith::measure(*dot, row, plane)),
                    p <= projection@.len(),
                    output@ == before + all.take(p as int),
                decreases projection@.len() - p,
            {
                output.push(arith::apply_measure(dot, buckets[b].as_slice(), projection[p].as_slice()));
                assert(all.take(p + 1) =~= all.take(p as int).push(all[p as int]));
                p += 1;
            }
            proof {
                assert(all.take(p as int) =~= all);
                assert(rows.take(b + 1).drop_last() =~= rows.take(b as int));
                assert(rows.take(b + 1).last() == row);
                assert(planes.map_values(|plane: Seq<Score>| arith::measure(*dot, rows.take(b + 1).last(), plane)) =~= all);
                assert(output@ =~= start + projections(*dot, rows.take(b + 1), planes));
            }
            b += 1;
        }
        assert(rows.take(b as int) =~= rows);
    }
}

/// The encoding of a query has a number for every projected dimension of every bucket
/// of every repetition.
pub proof fn law_query_encoding_has_the_output_dimension<D, A>(
    dot: D,
    add: A,
    encoder: FdeEncoder,
    vectors: Seq<Seq<Score>>,
    repetitions: nat,
) where D: Fn(&[Score], &[Score]) -> Score, A: Fn(Score, Score) -> Score
    requires
        encoder.wf(),
        repetitions <= encoder.repetitions@.len(),
    ensures
        query_encoding(dot, add, encoder, vectors, repetitions).len() == pow2(encoder.ksim as nat)
            * encoder.projected as nat * repetitions,
    decreases repetitions,
{
    let n = pow2(encoder.ksim as nat) * encoder.projected as nat;
    if repetitions == 0 {
        assert(n * 0 == 0) by (nonlinear_arith);
    } else {
        law_query_encoding_has_the_output_dimension(dot, add, encoder, vectors, (repetitions - 1) as nat);
        let r = encoder.repetitions@[repetitions - 1];
        let planes = arith::rows(r.hash_planes@);
        lemma_projections_len(
            dot,
            bucket_sums(dot, add, vectors, planes, encoder.ksim as nat, encoder.dimension as nat),
            arith::rows(r.projection@),
        );
        assert(n * repetitions == n * ((repetitions - 1) as nat) + n) by (nonlinear_arith)
            requires
                repetitions >= 1,
        ;
    }
}

/// The encoding of a document has a number for every projected dimension of every
/// bucket of every repetition.
pub proof fn law_encoding_has_the_output_dimension<D, A, V>(
    dot: D,
    add: A,
    average: V,
    encoder: FdeEncoder,
    vectors: Seq<Seq<Score>>,
    repetitions: nat,
) where D: Fn(&[Score], &[Score]) -> Score, A: Fn(Score, Score) -> Score, V: Fn(Score, usize) -> Score
    requires
        encoder.wf(),
        repetitions <= encoder.repetitions@.len(),
    ensures
        document_encoding(dot, add, average, encoder, vectors, repetitions).len() == pow2(encoder.ksim as nat)
            * encoder.projected as nat * repetitions,
    decreases repetitions,
{
    let n = pow2(encoder.ksim as nat) * encoder.projected as nat;
    if repetitions == 0 {
        assert(n * 0 == 0) by (nonlinear_arith);
    } else {
        law_encoding_has_the_output_dimension(dot, add, average, encoder, vectors, (repetitions - 1) as nat);
        let r = encoder.repetitions@[repetitions - 1];
        let planes = arith::rows(r.hash_planes@);
        let projection = arith::rows(r.projection@);
        lemma_projections_len(dot, filled_buckets(dot, add, average, encoder, vectors, planes), projection);
        assert(n * repetitions == n * ((repetitions - 1) as nat) + n) by (nonlinear_arith)
            requires
                repetitions >= 1,
        ;
    }
}

proof fn lemma_projections_len<D: Fn(&[Score], &[Score]) -> Score>(
    dot: D,
    buckets: Seq<Seq<Score>>,
    projection: Seq<Seq<Score>>,
)
    ensures
        projections(dot, buckets, projection).len() == buckets.len() * projection.len(),
    decreases buckets.len(),
{
    if buckets.len() == 0 {
        assert(0 * projection.len() == 0) by (nonlinear_arith);
    } else {
        lemma_projections_len(dot, buckets.drop_last(), projection);
        assert(buckets.len() * projection.len() == (buckets.len() - 1) * projection.len() + projection.len())
            by (nonlinear_arith);
    }
}

/// Encoders that differ in their version only encode queries alike.
pub proof fn law_versions_encode_queries_alike<D, A>(
    dot: D,
    add: A,
    first: FdeEncoder,
    second: FdeEncoder,
    vectors: Seq<Seq<Score>>,
    repetitions: nat,
) where D: Fn(&[Score], &[Score]) -> Score, A: Fn(Score, Score) -> Score
    requires
        first.dimension == second.dimension,
        first.ksim == second.ksim,
        first.repetitions@ == second.repetitions@,
        repetitions <= first.repetitions@.len(),
    ensures
        query_encoding(dot, add, first, vectors, repetitions) == query_encoding(dot, add, second, vectors, repetitions),
    decreases repetitions,
{
    if repetitions > 0 {
        law_versions_encode_queries_alike(dot, add, first, second, vectors, (repetitions - 1) as nat);
    }
}

/// In the second version every empty bucket holds the average of the nearest
/// occupied one, as that bucket itself does.
pub proof fn law_fill_preserves_the_average<V: Fn(Score, usize) -> Score>(
    average: V,
    sums: Seq<Seq<Score>>,
    counts: Seq<usize>,
    bucket: int,
    source: int,
)
    requires
        0 <= bucket < counts.len(),
        counts[bucket] == 0,
        is_nearest_occupied(bucket, counts, source),
    ensures
        filled(average, 2, sums, counts, bucket) == filled(average, 2, sums, counts, source),
        filled(average, 1, sums, counts, bucket) == if source < bucket {
            averages(average, filled(average, 1, sums, counts, source), counts[source])
        } else {
            filled(average, 1, sums, counts, source)
        },
{
    lemma_fill_source(bucket, counts, source);
}

} // verus!
