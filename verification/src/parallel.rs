//! Work spread over the threads of the global pool.

use vstd::prelude::*;
use rayon::iter::{IntoParallelIterator, ParallelIterator};

verus! {

/// `rayon::iter::ParallelIterator::map` over the numbers below `count`, collected
/// into a vector in their order: each place holds what a call of `f` with its
/// number returned.
#[verifier::external_body]
pub(crate) fn par_map<T: Send, F: Fn(usize) -> T + Sync + Send>(count: usize, f: &F) -> (r: Vec<T>)
    requires
        forall|i: usize| i < count ==> #[trigger] f.requires((i,)),
    ensures
        r@.len() == count,
        forall|i: int| 0 <= i < count ==> f.ensures((i as usize,), #[trigger] r@[i]),
{
    (0..count).into_par_iter().map(f).collect()
}

} // verus!
