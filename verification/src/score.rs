//! Single-precision IEEE-754 numbers, held by their bit patterns.
//!
//! The library compares, negates and classifies such numbers and never adds or
//! multiplies them itself: where a result needs arithmetic, the caller hands in
//! the function that computes it.

use vstd::prelude::*;

verus! {

/// A single-precision number, by its bit pattern.
pub type Score = u32;

/// The bit pattern of `1.0`.
pub const ONE: Score = 0x3f80_0000;

/// The bit pattern of positive infinity.
pub const INFINITY: Score = 0x7f80_0000;

/// The bit pattern with the sign bit cleared.
pub open spec fn magnitude(bits: Score) -> int {
    if bits < 0x8000_0000 {
        bits as int
    } else {
        bits - 0x8000_0000
    }
}

/// Whether the number is neither infinite nor a NaN.
pub open spec fn finite(bits: Score) -> bool {
    magnitude(bits) < 0x7f80_0000
}

/// Whether the number is a NaN.
pub open spec fn nan(bits: Score) -> bool {
    magnitude(bits) > 0x7f80_0000
}

/// The place of a number in the total order: every NaN with the sign bit set
/// first, then the negative numbers, `-0.0`, `0.0`, the positive numbers, and
/// every NaN without the sign bit last.
pub open spec fn total_key(bits: Score) -> int {
    if bits < 0x8000_0000 {
        bits as int
    } else {
        0x7fff_ffff - bits
    }
}

/// The place of a number that is not a NaN among the reals: both zeros are at 0.
pub open spec fn value_key(bits: Score) -> int {
    if bits < 0x8000_0000 {
        bits as int
    } else {
        0x8000_0000 - bits
    }
}

/// `a < b` as IEEE-754 defines it: false where either side is a NaN.
pub open spec fn less(a: Score, b: Score) -> bool {
    !nan(a) && !nan(b) && value_key(a) < value_key(b)
}

/// The number with its sign bit flipped.
pub open spec fn negated(bits: Score) -> Score {
    if bits < 0x8000_0000 {
        (bits + 0x8000_0000) as u32
    } else {
        (bits - 0x8000_0000) as u32
    }
}

/// Whether the number is neither infinite nor a NaN.
pub fn is_finite(bits: Score) -> (r: bool)
    ensures
        r == finite(bits),
{
    if bits < 0x8000_0000 {
        bits < 0x7f80_0000
    } else {
        bits - 0x8000_0000 < 0x7f80_0000
    }
}

/// Whether the number is a NaN.
pub fn is_nan(bits: Score) -> (r: bool)
    ensures
        r == nan(bits),
{
    if bits < 0x8000_0000 {
        bits > 0x7f80_0000
    } else {
        bits - 0x8000_0000 > 0x7f80_0000
    }
}

/// Whether every number of the slice is finite.
pub fn all_finite(values: &[Score]) -> (r: bool)
    ensures
        r == (forall|i: int| 0 <= i < values@.len() ==> finite(#[trigger] values@[i])),
{
    let mut i: usize = 0;
    while i < values.len()
        invariant
            i <= values@.len(),
            forall|j: int| 0 <= j < i ==> finite(#[trigger] values@[j]),
        decreases values@.len() - i,
    {
        if !is_finite(values[i]) {
            return false;
        }
        i += 1;
    }
    true
}

/// `a < b` as IEEE-754 defines it.
pub fn is_less(a: Score, b: Score) -> (r: bool)
    ensures
        r == less(a, b),
{
    !is_nan(a) && !is_nan(b) && value_rank(a) < value_rank(b)
}

/// The number with its sign bit flipped.
pub fn negate(bits: Score) -> (r: Score)
    ensures
        r == negated(bits),
{
    if bits < 0x8000_0000 {
        bits + 0x8000_0000
    } else {
        bits - 0x8000_0000
    }
}

/// The place of a number in the total order.
pub fn total_rank(bits: Score) -> (r: i64)
    ensures
        r == total_key(bits),
{
    if bits < 0x8000_0000 {
        bits as i64
    } else {
        0x7fff_ffff - bits as i64
    }
}

/// The place of a number among the reals.
pub fn value_rank(bits: Score) -> (r: i64)
    ensures
        r == value_key(bits),
{
    if bits < 0x8000_0000 {
        bits as i64
    } else {
        0x8000_0000 - bits as i64
    }
}

/// The number at a place of the total order.
pub open spec fn at_total_key(key: int) -> Score {
    if key >= 0 {
        key as u32
    } else {
        (0x7fff_ffff - key) as u32
    }
}

/// The number at a place of the total order.
pub fn at_total_rank(key: i64) -> (r: Score)
    requires
        -0x8000_0000 <= key < 0x8000_0000,
    ensures
        r == at_total_key(key as int),
{
    if key >= 0 {
        key as u32
    } else {
        (0x7fff_ffff - key) as u32
    }
}

/// The total order tells every two bit patterns apart: the place of a number in
/// it gives the number back.
pub proof fn law_total_key_is_injective(bits: Score)
    ensures
        at_total_key(total_key(bits)) == bits,
        -0x8000_0000 <= total_key(bits) < 0x8000_0000,
{
}

/// Negation turns the total order round, and doing it twice changes nothing.
pub proof fn law_negation_reverses(a: Score, b: Score)
    ensures
        total_key(a) < total_key(b) <==> total_key(negated(b)) < total_key(negated(a)),
        negated(negated(a)) == a,
{
}

/// The position of a least element by the total order; the first one where
/// several are equal.
pub open spec fn is_first_least(values: Seq<Score>, at: int) -> bool {
    &&& 0 <= at < values.len()
    &&& forall|i: int| 0 <= i < values.len() ==> total_key(values[at]) <= total_key(#[trigger] values[i])
    &&& forall|i: int| 0 <= i < at ==> total_key(values[at]) < total_key(#[trigger] values[i])
}

/// The position of the first least element by the total order.
pub fn first_least(values: &[Score]) -> (r: usize)
    requires
        values@.len() > 0,
    ensures
        is_first_least(values@, r as int),
{
    let mut best: usize = 0;
    let mut i: usize = 1;
    while i < values.len()
        invariant
            1 <= i <= values@.len(),
            best < i,
            forall|j: int| 0 <= j < i ==> total_key(values@[best as int]) <= total_key(#[trigger] values@[j]),
            forall|j: int| 0 <= j < best ==> total_key(values@[best as int]) < total_key(#[trigger] values@[j]),
        decreases values@.len() - i,
    {
        if total_rank(values[i]) < total_rank(values[best]) {
            best = i;
        }
        i += 1;
    }
    best
}

} // verus!
