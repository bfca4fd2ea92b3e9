//! Arithmetic on numbers, as functions that callers hand in.
//!
//! The library decides which numbers are combined and in what order; the sums,
//! products and distances themselves come from the caller. A function handed in
//! must be one in the mathematical sense: equal operands give equal results.

use vstd::prelude::*;
use crate::score::Score;

verus! {

/// Whether `f` takes any two numbers and gives the same result for the same two.
pub open spec fn is_binary<F: Fn(Score, Score) -> Score>(f: F) -> bool {
    &&& forall|a: Score, b: Score| #[trigger] f.requires((a, b))
    &&& forall|a: Score, b: Score, r: Score, s: Score|
        #[trigger] f.ensures((a, b), r) && #[trigger] f.ensures((a, b), s) ==> r == s
}

/// The result of a binary operation.
pub open spec fn binary<F: Fn(Score, Score) -> Score>(f: F, a: Score, b: Score) -> Score {
    choose|r: Score| f.ensures((a, b), r)
}

/// Applies a binary operation.
pub(crate) fn apply_binary<F: Fn(Score, Score) -> Score>(f: &F, a: Score, b: Score) -> (r: Score)
    requires
        is_binary(*f),
    ensures
        r == binary(*f, a, b),
{
    f(a, b)
}

/// Whether `f` takes any three numbers and gives the same result for the same
/// three.
pub open spec fn is_ternary<F: Fn(Score, Score, Score) -> Score>(f: F) -> bool {
    &&& forall|a: Score, b: Score, c: Score| #[trigger] f.requires((a, b, c))
    &&& forall|a: Score, b: Score, c: Score, r: Score, s: Score|
        #[trigger] f.ensures((a, b, c), r) && #[trigger] f.ensures((a, b, c), s) ==> r == s
}

/// The result of a ternary operation.
pub open spec fn ternary<F: Fn(Score, Score, Score) -> Score>(f: F, a: Score, b: Score, c: Score) -> Score {
    choose|r: Score| f.ensures((a, b, c), r)
}

/// Applies a ternary operation.
pub(crate) fn apply_ternary<F: Fn(Score, Score, Score) -> Score>(f: &F, a: Score, b: Score, c: Score) -> (r: Score)
    requires
        is_ternary(*f),
    ensures
        r == ternary(*f, a, b, c),
{
    f(a, b, c)
}

/// Whether `f` takes any two vectors and gives the same result for vectors that
/// hold the same numbers.
pub open spec fn is_measure<F: Fn(&[Score], &[Score]) -> Score>(f: F) -> bool {
    &&& forall|a: &[Score], b: &[Score]| #[trigger] f.requires((a, b))
    &&& forall|a: &[Score], b: &[Score], c: &[Score], d: &[Score], r: Score, s: Score|
        #[trigger] f.ensures((a, b), r) && #[trigger] f.ensures((c, d), s) && a@ == c@ && b@ == d@ ==> r == s
}

/// Whether `r` is the measure of two vectors.
pub open spec fn measures<F: Fn(&[Score], &[Score]) -> Score>(
    f: F,
    a: Seq<Score>,
    b: Seq<Score>,
    r: Score,
) -> bool {
    exists|x: &[Score], y: &[Score]| x@ == a && y@ == b && #[trigger] f.ensures((x, y), r)
}

/// The measure of two vectors.
pub open spec fn measure<F: Fn(&[Score], &[Score]) -> Score>(f: F, a: Seq<Score>, b: Seq<Score>) -> Score {
    choose|r: Score| measures(f, a, b, r)
}

/// Measures two vectors.
pub(crate) fn apply_measure<F: Fn(&[Score], &[Score]) -> Score>(f: &F, a: &[Score], b: &[Score]) -> (r: Score)
    requires
        is_measure(*f),
    ensures
        r == measure(*f, a@, b@),
{
    let r: Score = f(a, b);
    proof {
        assert(measures(*f, a@, b@, r));
    }
    r
}

/// Whether `f` takes any number and any count and gives the same result for the
/// same two.
pub open spec fn is_scaling<F: Fn(Score, usize) -> Score>(f: F) -> bool {
    &&& forall|a: Score, n: usize| #[trigger] f.requires((a, n))
    &&& forall|a: Score, n: usize, r: Score, s: Score|
        #[trigger] f.ensures((a, n), r) && #[trigger] f.ensures((a, n), s) ==> r == s
}

/// A number scaled by a count.
pub open spec fn scaled<F: Fn(Score, usize) -> Score>(f: F, a: Score, n: usize) -> Score {
    choose|r: Score| f.ensures((a, n), r)
}

/// Scales a number by a count.
pub(crate) fn apply_scaling<F: Fn(Score, usize) -> Score>(f: &F, a: Score, n: usize) -> (r: Score)
    requires
        is_scaling(*f),
    ensures
        r == scaled(*f, a, n),
{
    f(a, n)
}

/// The rows of a matrix.
pub open spec fn rows(m: Seq<Vec<Score>>) -> Seq<Seq<Score>> {
    m.map_values(|row: Vec<Score>| row@)
}

} // verus!
