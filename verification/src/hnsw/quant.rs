//! Vectors by codes of eight bits.

use vstd::prelude::*;
use crate::arith;
use crate::hnsw::graph::HNSWIndex;
use crate::hnsw::rcm;
use crate::hnsw::reorder;
use crate::hnsw::types::DistanceMetric;
use crate::score;
use crate::score::Score;

verus! {

/// The bit pattern of the largest finite number.
pub const LARGEST: Score = 0x7f7f_ffff;

/// The bit pattern of the smallest finite number.
pub const SMALLEST: Score = 0xff7f_ffff;

/// Whether `f` gives every number a code, the same each time.
pub open spec fn is_code<F: Fn(Score) -> T, T>(f: F) -> bool {
    &&& forall|v: Score| #[trigger] f.requires((v,))
    &&& forall|v: Score, r: T, s: T| #[trigger] f.ensures((v,), r) && #[trigger] f.ensures((v,), s) ==> r == s
}

/// The code of a number.
pub open spec fn code<F: Fn(Score) -> T, T>(f: F, v: Score) -> T {
    choose|r: T| f.ensures((v,), r)
}

/// Whether `f` gives every number a code by an offset and a step, the same each
/// time.
pub open spec fn is_scaled_code<F: Fn(Score, Score, Score) -> T, T>(f: F) -> bool {
    &&& forall|v: Score, min: Score, scale: Score| #[trigger] f.requires((v, min, scale))
    &&& forall|v: Score, min: Score, scale: Score, r: T, s: T|
        #[trigger] f.ensures((v, min, scale), r) && #[trigger] f.ensures((v, min, scale), s) ==> r == s
}

/// The code of a number by an offset and a step.
pub open spec fn scaled_code<F: Fn(Score, Score, Score) -> T, T>(f: F, v: Score, min: Score, scale: Score) -> T {
    choose|r: T| f.ensures((v, min, scale), r)
}

/// How vectors are given codes.
///
/// With the cosine metric each number has a code of its own. With the others its
/// code lies between the least and the greatest number of its dimension among the
/// points that are not deleted.
pub struct Coding<'a, C: Fn(Score) -> u8, L: Fn(Score, Score) -> Score, U: Fn(Score, Score) -> Score, S: Fn(
    Score,
    Score,
) -> Score, D: Fn(Score, Score, Score) -> u8> {
    pub centered: &'a C,
    pub lesser: &'a L,
    pub greater: &'a U,
    /// The step between codes, from the least and the greatest number.
    pub step: &'a S,
    pub scaled: &'a D,
}

/// The extreme of a dimension among the first `upto` vectors that are not
/// deleted, from a starting value.
pub open spec fn extreme<F: Fn(Score, Score) -> Score>(
    pick: F,
    start: Score,
    vectors: Seq<Seq<Score>>,
    deleted: Seq<bool>,
    d: int,
    upto: nat,
) -> Score
    decreases upto,
{
    if upto == 0 {
        start
    } else {
        let before = extreme(pick, start, vectors, deleted, d, (upto - 1) as nat);
        if deleted[upto - 1] {
            before
        } else {
            arith::binary(pick, before, vectors[upto - 1][d])
        }
    }
}

/// The extremes of every dimension.
fn extremes<F: Fn(Score, Score) -> Score>(index: &HNSWIndex, pick: &F, start: Score) -> (r: Vec<Score>)
    requires
        index.wf(),
        arith::is_binary(*pick),
    ensures
        r@ == Seq::new(
            index.dim as nat,
            |d: int| extreme(*pick, start, index.vectors.vectors(), index.deleted@, d, index.nodes()),
        ),
{
    let n: usize = index.len();
    let dim: usize = index.dim;
    let ghost vectors = index.vectors.vectors();
    let ghost deleted = index.deleted@;
    let mut out: Vec<Score> = Vec::with_capacity(dim);
    let mut d: usize = 0;
    while d < dim
        invariant
            d <= dim,
            out@.len() == d,
            forall|k: int| 0 <= k < d ==> #[trigger] out@[k] == start,
        decreases dim - d,
    {
        out.push(start);
        d += 1;
    }
    let mut i: usize = 0;
    while i < n
        invariant
            i <= n,
            n == index.nodes(),
            dim == index.dim,
            index.wf(),
            arith::is_binary(*pick),
            vectors == index.vectors.vectors(),
            deleted == index.deleted@,
            out@.len() == dim,
            forall|k: int|
                0 <= k < dim ==> #[trigger] out@[k] == extreme(*pick, start, vectors, deleted, k, i as nat),
        decreases n - i,
    {
        if !index.deleted[i] {
            let vector: &[Score] = index.vector_slice(i);
            let mut d: usize = 0;
            while d < dim
                invariant
                    d <= dim,
                    i < n,
                    dim == vector@.len(),
                    vector@ == vectors[i as int],
                    !deleted[i as int],
                    arith::is_binary(*pick),
                    out@.len() == dim,
                    forall|k: int|
                        0 <= k < dim ==> #[trigger] out@[k] == if k < d {
                            extreme(*pick, start, vectors, deleted, k, (i + 1) as nat)
                        } else {
                            extreme(*pick, start, vectors, deleted, k, i as nat)
                        },
                decreases dim - d,
            {
                let value: Score = arith::apply_binary(pick, out[d], vector[d]);
                out.set(d, value);
                d += 1;
            }
        }
        i += 1;
    }
    assert(out@ =~= Seq::new(
        index.dim as nat,
        |d: int| extreme(*pick, start, index.vectors.vectors(), index.deleted@, d, index.nodes()),
    ));
    out
}

/// The codes of a vector.
pub open spec fn vector_codes<C: Fn(Score) -> u8, D: Fn(Score, Score, Score) -> u8>(
    metric: DistanceMetric,
    centered: C,
    scaled: D,
    min: Seq<Score>,
    scale: Seq<Score>,
    vector: Seq<Score>,
) -> Seq<u8> {
    Seq::new(
        vector.len(),
        |d: int|
            if metric == DistanceMetric::Cosine {
                code(centered, vector[d])
            } else {
                scaled_code(scaled, vector[d], min[d], scale[d])
            },
    )
}

/// The codes of the first `upto` vectors, one after the other.
pub open spec fn all_codes<C: Fn(Score) -> u8, D: Fn(Score, Score, Score) -> u8>(
    metric: DistanceMetric,
    centered: C,
    scaled: D,
    min: Seq<Score>,
    scale: Seq<Score>,
    vectors: Seq<Seq<Score>>,
    upto: nat,
) -> Seq<u8>
    decreases upto,
{
    if upto == 0 {
        Seq::empty()
    } else {
        all_codes(metric, centered, scaled, min, scale, vectors, (upto - 1) as nat) + vector_codes(
            metric,
            centered,
            scaled,
            min,
            scale,
            vectors[upto - 1],
        )
    }
}

proof fn lemma_codes_len<C: Fn(Score) -> u8, D: Fn(Score, Score, Score) -> u8>(
    metric: DistanceMetric,
    centered: C,
    scaled: D,
    min: Seq<Score>,
    scale: Seq<Score>,
    vectors: Seq<Seq<Score>>,
    dim: nat,
    upto: nat,
)
    requires
        upto <= vectors.len(),
        forall|i: int| 0 <= i < vectors.len() ==> (#[trigger] vectors[i]).len() == dim,
    ensures
        all_codes(metric, centered, scaled, min, scale, vectors, upto).len() == upto * dim,
    decreases upto,
{
    if upto > 0 {
        lemma_codes_len(metric, centered, scaled, min, scale, vectors, dim, (upto - 1) as nat);
        assert(upto * dim == (upto - 1) * dim + dim) by (nonlinear_arith)
            requires
                upto > 0,
        ;
        assert(vectors[upto - 1].len() == dim);
    } else {
        assert(0 * dim == 0) by (nonlinear_arith);
    }
}

/// The codes of the vector of node `i` stand from `i` times the dimension on.
pub proof fn law_codes_of_a_node<C: Fn(Score) -> u8, D: Fn(Score, Score, Score) -> u8>(
    metric: DistanceMetric,
    centered: C,
    scaled: D,
    min: Seq<Score>,
    scale: Seq<Score>,
    vectors: Seq<Seq<Score>>,
    dim: nat,
    upto: nat,
    i: int,
)
    requires
        0 <= i < upto <= vectors.len(),
        forall|i: int| 0 <= i < vectors.len() ==> (#[trigger] vectors[i]).len() == dim,
    ensures
        all_codes(metric, centered, scaled, min, scale, vectors, upto).len() == upto * dim,
        (i + 1) * dim <= upto * dim,
        all_codes(metric, centered, scaled, min, scale, vectors, upto).subrange(i * dim, (i + 1) * dim)
            == vector_codes(metric, centered, scaled, min, scale, vectors[i]),
    decreases upto,
{
    let before = all_codes(metric, centered, scaled, min, scale, vectors, (upto - 1) as nat);
    let last = vector_codes(metric, centered, scaled, min, scale, vectors[upto - 1]);
    lemma_codes_len(metric, centered, scaled, min, scale, vectors, dim, upto);
    lemma_codes_len(metric, centered, scaled, min, scale, vectors, dim, (upto - 1) as nat);
    assert((i + 1) * dim == i * dim + dim && i * dim >= 0) by (nonlinear_arith)
        requires
            i >= 0,
            dim >= 0,
    ;
    assert((i + 1) * dim <= upto * dim) by (nonlinear_arith)
        requires
            i + 1 <= upto,
            dim >= 0,
    ;
    assert(vectors[i].len() == dim);
    if i < upto - 1 {
        law_codes_of_a_node(metric, centered, scaled, min, scale, vectors, dim, (upto - 1) as nat, i);
        assert((before + last).subrange(i * dim, (i + 1) * dim) =~= before.subrange(i * dim, (i + 1) * dim));
    } else {
        assert((before + last).subrange(i * dim, (i + 1) * dim) =~= last);
    }
}

impl HNSWIndex {
    /// Whether the codes are those of the vectors, one after the other.
    pub open spec fn codes_are<C: Fn(Score) -> u8, D: Fn(Score, Score, Score) -> u8>(
        &self,
        centered: C,
        scaled: D,
    ) -> bool {
        self.quantized@ == all_codes(
            self.metric,
            centered,
            scaled,
            self.quant_min@,
            self.quant_scale@,
            self.vectors.vectors(),
            self.nodes(),
        )
    }

    /// Whether the ranges of the dimensions are those of the present vectors of a
    /// graph: the least number of each dimension and the step up to the greatest. A
    /// graph that compares by angle needs none.
    pub open spec fn ranges_are<L, U, S>(&self, of: HNSWIndex, lesser: L, greater: U, step: S) -> bool where
        L: Fn(Score, Score) -> Score,
        U: Fn(Score, Score) -> Score,
        S: Fn(Score, Score) -> Score,
     {
        if of.metric == DistanceMetric::Cosine {
            self.quant_min@.len() == 0 && self.quant_scale@.len() == 0
        } else {
            &&& self.quant_min@ == Seq::new(
                of.dim as nat,
                |d: int| extreme(lesser, LARGEST, of.vectors.vectors(), of.deleted@, d, of.nodes()),
            )
            &&& self.quant_scale@ == Seq::new(
                of.dim as nat,
                |d: int|
                    arith::binary(
                        step,
                        self.quant_min@[d],
                        extreme(greater, SMALLEST, of.vectors.vectors(), of.deleted@, d, of.nodes()),
                    ),
            )
        }
    }

    /// Gives every vector its codes.
    pub fn quantize_all<
        C: Fn(Score) -> u8,
        L: Fn(Score, Score) -> Score,
        U: Fn(Score, Score) -> Score,
        S: Fn(Score, Score) -> Score,
        D: Fn(Score, Score, Score) -> u8,
    >(&mut self, coding: &Coding<'_, C, L, U, S, D>)
        requires
            old(self).wf(),
            is_code(*coding.centered),
            arith::is_binary(*coding.lesser),
            arith::is_binary(*coding.greater),
            arith::is_binary(*coding.step),
            is_scaled_code(*coding.scaled),
        ensures
            final(self).wf(),
            old(self).nodes() == 0 ==> *final(self) == *old(self),
            old(self).nodes() > 0 ==> {
                &&& *final(self) == (HNSWIndex {
                    quantized: final(self).quantized,
                    quant_min: final(self).quant_min,
                    quant_scale: final(self).quant_scale,
                    ..*old(self)
                })
                &&& final(self).codes_are(*coding.centered, *coding.scaled)
                &&& final(self).ranges_are(*old(self), *coding.lesser, *coding.greater, *coding.step)
            },
    {
        let n: usize = self.len();
        if n == 0 {
            return ;
        }
        let cosine: bool = self.metric == DistanceMetric::Cosine;
        let mut min: Vec<Score> = Vec::new();
        let mut scale: Vec<Score> = Vec::new();
        if !cosine {
            min = extremes(self, coding.lesser, LARGEST);
            let max: Vec<Score> = extremes(self, coding.greater, SMALLEST);
            let dim: usize = self.dim;
            let ghost goal = Seq::new(
                dim as nat,
                |d: int|
                    arith::binary(
                        *coding.step,
                        min@[d],
                        extreme(
                            *coding.greater,
                            SMALLEST,
                            self.vectors.vectors(),
                            self.deleted@,
                            d,
                            self.nodes(),
                        ),
                    ),
            );
            let mut d: usize = 0;
            while d < dim
                invariant
                    d <= dim,
                    min@.len() == dim,
                    max@.len() == dim,
                    arith::is_binary(*coding.step),
                    scale@.len() == d,
                    forall|k: int| 0 <= k < d ==> #[trigger] scale@[k] == arith::binary(*coding.step, min@[k], max@[k]),
                decreases dim - d,
            {
                scale.push(arith::apply_binary(coding.step, min[d], max[d]));
                d += 1;
            }
            assert(scale@ =~= goal);
        }
        let quantized: Vec<u8> = self.codes(coding, cosine, &min, &scale);
        self.quant_min = min;
        self.quant_scale = scale;
        self.quantized = quantized;
    }

    /// The codes of the vectors, one after the other.
    fn codes<
        C: Fn(Score) -> u8,
        L: Fn(Score, Score) -> Score,
        U: Fn(Score, Score) -> Score,
        S: Fn(Score, Score) -> Score,
        D: Fn(Score, Score, Score) -> u8,
    >(&self, coding: &Coding<'_, C, L, U, S, D>, cosine: bool, min: &Vec<Score>, scale: &Vec<Score>) -> (r: Vec<u8>)
        requires
            self.wf(),
            is_code(*coding.centered),
            is_scaled_code(*coding.scaled),
            cosine == (self.metric == DistanceMetric::Cosine),
            !cosine ==> min@.len() == self.dim && scale@.len() == self.dim,
        ensures
            r@ == all_codes(
                self.metric,
                *coding.centered,
                *coding.scaled,
                min@,
                scale@,
                self.vectors.vectors(),
                self.nodes(),
            ),
    {
        let n: usize = self.len();
        let dim: usize = self.dim;
        let ghost vectors = self.vectors.vectors();
        let mut out: Vec<u8> = Vec::new();
        let mut i: usize = 0;
        while i < n
            invariant
                i <= n,
                n == self.nodes(),
                dim == self.dim,
                vectors == self.vectors.vectors(),
                self.wf(),
                is_code(*coding.centered),
                is_scaled_code(*coding.scaled),
                cosine == (self.metric == DistanceMetric::Cosine),
                !cosine ==> min@.len() == dim && scale@.len() == dim,
                out@ == all_codes(
                    self.metric,
                    *coding.centered,
                    *coding.scaled,
                    min@,
                    scale@,
                    vectors,
                    i as nat,
                ),
            decreases n - i,
        {
            let vector: &[Score] = self.vector_slice(i);
            let ghost before = out@;
            let ghost goal = vector_codes(
                self.metric,
                *coding.centered,
                *coding.scaled,
                min@,
                scale@,
                vector@,
            );
            let mut d: usize = 0;
            assert(out@ =~= before + goal.take(0));
            while d < dim
                invariant
                    d <= dim,
                    vector@.len() == dim,
                    is_code(*coding.centered),
                    is_scaled_code(*coding.scaled),
                    cosine == (self.metric == DistanceMetric::Cosine),
                    !cosine ==> min@.len() == dim && scale@.len() == dim,
                    goal == vector_codes(
                        self.metric,
                        *coding.centered,
                        *coding.scaled,
                        min@,
                        scale@,
                        vector@,
                    ),
                    out@ == before + goal.take(d as int),
                decreases dim - d,
            {
                let value: u8 = if cosine {
                    (coding.centered)(vector[d])
                } else {
                    (coding.scaled)(vector[d], min[d], scale[d])
                };
                assert(value == goal[d as int]);
                out.push(value);
                assert(out@ =~= before + goal.take(d + 1));
                d += 1;
            }
            assert(goal.take(d as int) =~= goal);
            i += 1;
        }
        out
    }

    /// Renumbers the nodes so that neighbours stand close to each other, and gives
    /// every vector its codes.
    pub fn enable_sq8_screening<
        C: Fn(Score) -> u8,
        L: Fn(Score, Score) -> Score,
        U: Fn(Score, Score) -> Score,
        S: Fn(Score, Score) -> Score,
        D: Fn(Score, Score, Score) -> u8,
    >(&mut self, coding: &Coding<'_, C, L, U, S, D>)
        requires
            old(self).wf(),
            is_code(*coding.centered),
            arith::is_binary(*coding.lesser),
            arith::is_binary(*coding.greater),
            arith::is_binary(*coding.step),
            is_scaled_code(*coding.scaled),
        ensures
            final(self).wf(),
            old(self).nodes() > 0 ==> final(self).codes_are(*coding.centered, *coding.scaled) && exists|mid: HNSWIndex| #[trigger]
                reorder::permuted(*old(self), mid, rcm::rcm_order(old(self).links()[0], old(self).nodes()))
                    && *final(self) == (HNSWIndex {
                    quantized: final(self).quantized,
                    quant_min: final(self).quant_min,
                    quant_scale: final(self).quant_scale,
                    ..mid
                }) && final(self).ranges_are(mid, *coding.lesser, *coding.greater, *coding.step),
            old(self).nodes() == 0 ==> *final(self) == (HNSWIndex {
                quantized: final(self).quantized,
                quant_min: final(self).quant_min,
                quant_scale: final(self).quant_scale,
                ..*old(self)
            }) && final(self).quantized@.len() == 0 && final(self).quant_min@.len() == 0
                && final(self).quant_scale@.len() == 0,
    {
        self.reorder_rcm();
        let ghost mid = *self;
        self.quantize_all(coding);
    }

    /// The codes of a node's vector.
    pub fn quantized_slice(&self, idx: usize) -> (r: &[u8])
        requires
            (idx + 1) * self.dim <= self.quantized@.len(),
        ensures
            r@ == self.quantized@.subrange(idx * self.dim, (idx + 1) * self.dim),
    {
        let total: usize = self.quantized.len();
        assert((idx + 1) * self.dim == idx * self.dim + self.dim) by (nonlinear_arith);
        assert(idx * self.dim >= 0) by (nonlinear_arith);
        let from: usize = idx * self.dim;
        let to: usize = from + self.dim;
        vstd::slice::slice_subrange(self.quantized.as_slice(), from, to)
    }

    /// The codes of a query, centred.
    pub fn quantize_query_i8<Q: Fn(Score) -> i8>(query: &[Score], centered: &Q) -> (r: Vec<i8>)
        requires
            is_code(*centered),
        ensures
            r@ == Seq::new(query@.len(), |d: int| code(*centered, query@[d])),
    {
        let ghost goal = Seq::new(query@.len(), |d: int| code(*centered, query@[d]));
        let mut out: Vec<i8> = Vec::with_capacity(query.len());
        let mut d: usize = 0;
        while d < query.len()
            invariant
                d <= query@.len(),
                is_code(*centered),
                out@.len() == d,
                forall|k: int| 0 <= k < d ==> #[trigger] out@[k] == code(*centered, query@[k]),
            decreases query@.len() - d,
        {
            let value: i8 = centered(query[d]);
            out.push(value);
            d += 1;
        }
        assert(out@ =~= goal);
        out
    }

    /// The codes of a query: centred with the cosine metric, by the offset and the
    /// step of each dimension otherwise; a dimension without them has offset zero
    /// and step one.
    pub fn quantize_query<Q: Fn(Score) -> i16, D: Fn(Score, Score, Score) -> i16>(
        &self,
        query: &[Score],
        centered: &Q,
        scaled: &D,
    ) -> (r: Vec<i16>)
        requires
            is_code(*centered),
            is_scaled_code(*scaled),
        ensures
            r@ == Seq::new(
                query@.len(),
                |d: int|
                    if self.metric == DistanceMetric::Cosine {
                        code(*centered, query@[d])
                    } else {
                        scaled_code(
                            *scaled,
                            query@[d],
                            if d < self.quant_min@.len() {
                                self.quant_min@[d]
                            } else {
                                0
                            },
                            if d < self.quant_scale@.len() {
                                self.quant_scale@[d]
                            } else {
                                score::ONE
                            },
                        )
                    },
            ),
    {
        let ghost goal = Seq::new(
            query@.len(),
            |d: int|
                if self.metric == DistanceMetric::Cosine {
                    code(*centered, query@[d])
                } else {
                    scaled_code(
                        *scaled,
                        query@[d],
                        if d < self.quant_min@.len() {
                            self.quant_min@[d]
                        } else {
                            0
                        },
                        if d < self.quant_scale@.len() {
                            self.quant_scale@[d]
                        } else {
                            score::ONE
                        },
                    )
                },
        );
        let mut out: Vec<i16> = Vec::with_capacity(query.len());
        let mut d: usize = 0;
        while d < query.len()
            invariant
                d <= query@.len(),
                is_code(*centered),
                is_scaled_code(*scaled),
                goal.len() == query@.len(),
                forall|d: int|
                    0 <= d < query@.len() ==> #[trigger] goal[d] == if self.metric == DistanceMetric::Cosine {
                        code(*centered, query@[d])
                    } else {
                        scaled_code(
                            *scaled,
                            query@[d],
                            if d < self.quant_min@.len() {
                                self.quant_min@[d]
                            } else {
                                0
                            },
                            if d < self.quant_scale@.len() {
                                self.quant_scale@[d]
                            } else {
                                score::ONE
                            },
                        )
                    },
                out@ == goal.take(d as int),
            decreases query@.len() - d,
        {
            assert(goal[d as int] == goal[d as int]);
            let value: i16 = if self.metric == DistanceMetric::Cosine {
                centered(query[d])
            } else {
                let min: Score = if d < self.quant_min.len() {
                    self.quant_min[d]
                } else {
                    0
                };
                let scale: Score = if d < self.quant_scale.len() {
                    self.quant_scale[d]
                } else {
                    score::ONE
                };
                scaled(query[d], min, scale)
            };
            assert(value == goal[d as int]);
            out.push(value);
            d += 1;
        }
        assert(out@ =~= goal);
        out
    }
}

/// The dot product of codes and a query, `offset` taken off each code.
pub open spec fn code_dot(codes: Seq<u8>, query: Seq<int>, offset: int) -> int
    decreases codes.len(),
{
    if codes.len() == 0 {
        0
    } else {
        code_dot(codes.drop_last(), query.drop_last(), offset) + (codes.last() - offset) * query.last()
    }
}

/// The numbers of a query, as far as there are codes.
pub open spec fn query_numbers(query: Seq<i16>, n: int) -> Seq<int> {
    Seq::new(n as nat, |d: int| query[d] as int)
}

/// The numbers of a query, as far as there are codes.
pub open spec fn query_bytes(query: Seq<i8>, n: int) -> Seq<int> {
    Seq::new(n as nat, |d: int| query[d] as int)
}

/// The smaller of two lengths.
pub open spec fn common(a: nat, b: nat) -> int {
    if a < b {
        a as int
    } else {
        b as int
    }
}

/// Whether all partial sums of a dot product fit in 32 bits.
pub open spec fn sums_fit(codes: Seq<u8>, query: Seq<int>, offset: int) -> bool {
    forall|k: int|
        0 <= k <= codes.len() ==> i32::MIN <= #[trigger] code_dot(codes.take(k), query.take(k), offset) <= i32::MAX
}

/// The dot product of a query with codes that are centred at 128.
///
/// Higher means closer.
pub fn screen_dot_scalar(query_i8: &[i8], stored: &[u8]) -> (r: i32)
    requires
        common(query_i8@.len(), stored@.len()) < 131072,
    ensures
        r == code_dot(
            stored@.take(common(query_i8@.len(), stored@.len())),
            query_bytes(query_i8@, common(query_i8@.len(), stored@.len())),
            128,
        ),
{
    let n: usize = if query_i8.len() < stored.len() {
        query_i8.len()
    } else {
        stored.len()
    };
    let ghost query = query_bytes(query_i8@, n as int);
    let ghost codes = stored@.take(n as int);
    let mut sum: i32 = 0;
    let mut i: usize = 0;
    while i < n
        invariant
            i <= n < 131072,
            n <= query_i8@.len(),
            n <= stored@.len(),
            query == query_bytes(query_i8@, n as int),
            codes == stored@.take(n as int),
            sum == code_dot(codes.take(i as int), query.take(i as int), 128),
            -16384 * i <= sum <= 16384 * i,
        decreases n - i,
    {
        let q: i32 = query_i8[i] as i32;
        let s: i32 = stored[i] as i32 - 128;
        assert(codes.take(i + 1).drop_last() =~= codes.take(i as int));
        assert(query.take(i + 1).drop_last() =~= query.take(i as int));
        assert(codes.take(i + 1).last() == stored@[i as int]);
        assert(query.take(i + 1).last() == query_i8@[i as int]);
        assert(-16384 <= q * s <= 16384) by (nonlinear_arith)
            requires
                -128 <= q <= 127,
                -128 <= s <= 127,
        ;
        assert(q * s == s * q) by (nonlinear_arith);
        sum = sum + q * s;
        i += 1;
    }
    assert(codes.take(i as int) =~= codes);
    assert(query.take(i as int) =~= query);
    sum
}

impl HNSWIndex {
    /// The dot product of a query with codes that are centred at 128.
    pub fn screen_dot(query_i8: &[i8], stored: &[u8]) -> (r: i32)
        requires
            common(query_i8@.len(), stored@.len()) < 131072,
        ensures
            r == code_dot(
                stored@.take(common(query_i8@.len(), stored@.len())),
                query_bytes(query_i8@, common(query_i8@.len(), stored@.len())),
                128,
            ),
    {
        screen_dot_scalar(query_i8, stored)
    }

    /// The codes of a node, as far as the query has numbers.
    pub open spec fn node_codes(&self, idx: int, query_len: nat) -> Seq<u8> {
        self.quantized@.subrange(idx * self.dim, (idx + 1) * self.dim).take(common(self.dim as nat, query_len))
    }

    /// What is taken off each code.
    pub open spec fn code_offset(&self) -> int {
        if self.metric == DistanceMetric::Cosine {
            128
        } else {
            0
        }
    }

    /// The approximate dot product of a query with a node's vector, by their codes.
    ///
    /// Higher means closer.
    pub fn sq8_approx_dot(&self, query_q: &[i16], idx: usize) -> (r: i32)
        requires
            (idx + 1) * self.dim <= self.quantized@.len(),
            sums_fit(
                self.node_codes(idx as int, query_q@.len()),
                query_numbers(query_q@, common(self.dim as nat, query_q@.len())),
                self.code_offset(),
            ),
        ensures
            r == code_dot(
                self.node_codes(idx as int, query_q@.len()),
                query_numbers(query_q@, common(self.dim as nat, query_q@.len())),
                self.code_offset(),
            ),
    {
        let v: &[u8] = self.quantized_slice(idx);
        assert((idx + 1) * self.dim == idx * self.dim + self.dim) by (nonlinear_arith);
        assert(idx * self.dim >= 0) by (nonlinear_arith);
        assert(v@.len() == self.dim);
        let n: usize = if query_q.len() < v.len() {
            query_q.len()
        } else {
            v.len()
        };
        let offset: i64 = if self.metric == DistanceMetric::Cosine {
            128
        } else {
            0
        };
        let ghost codes = self.node_codes(idx as int, query_q@.len());
        let ghost query = query_numbers(query_q@, n as int);
        assert(codes == v@.take(n as int));
        let mut sum: i64 = 0;
        let mut d: usize = 0;
        while d < n
            invariant
                d <= n,
                n <= v@.len(),
                n <= query_q@.len(),
                codes == v@.take(n as int),
                query == query_numbers(query_q@, n as int),
                0 <= offset <= 128,
                offset == self.code_offset(),
                sums_fit(codes, query, offset as int),
                sum == code_dot(codes.take(d as int), query.take(d as int), offset as int),
                i32::MIN <= sum <= i32::MAX,
            decreases n - d,
        {
            let b: i64 = v[d] as i64 - offset;
            let q: i64 = query_q[d] as i64;
            assert(codes.take(d + 1).drop_last() =~= codes.take(d as int));
            assert(query.take(d + 1).drop_last() =~= query.take(d as int));
            assert(codes.take(d + 1).last() == v@[d as int]);
            assert(query.take(d + 1).last() == query_q@[d as int]);
            assert(-8388608 <= b * q <= 8388608) by (nonlinear_arith)
                requires
                    -128 <= b <= 255,
                    -32768 <= q <= 32767,
            ;
            sum = sum + b * q;
            assert(sum == code_dot(codes.take(d + 1), query.take(d + 1), offset as int));
            d += 1;
        }
        assert(codes.take(d as int) =~= codes);
        assert(query.take(d as int) =~= query);
        sum as i32
    }
}

} // verus!
