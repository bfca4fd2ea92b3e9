//! The order in which a batch is inserted by the local dimensionality of its
//! vectors: those of the highest estimate come first.

use vstd::prelude::*;
use crate::hnsw::graph::HNSWIndex;
use crate::hnsw::types::PointId;
use crate::order;
use crate::score;
use crate::score::Score;

verus! {

/// A batch of fewer points is not reordered.
pub const MIN_BATCH: usize = 4;

/// At most how many vectors a vector is compared with.
pub const MAX_SAMPLE: usize = 32;

/// With how many of `n` vectors each is compared.
pub open spec fn sample_size(n: int) -> int {
    if MAX_SAMPLE < n - 1 {
        MAX_SAMPLE as int
    } else {
        n - 1
    }
}

/// The positions of the vectors that the one at `i` is compared with.
pub open spec fn samples(i: int, n: int) -> Seq<int> {
    Seq::new(sample_size(n) as nat, |s: int| (i + 1 + s * (n / sample_size(n) + 1)) % n)
}

/// The positions of the vectors that the one at `i` of `n` is compared with.
pub fn lid_samples(i: usize, n: usize) -> (r: Vec<usize>)
    requires
        i < n,
        n <= usize::MAX / 4,
        n >= MIN_BATCH,
    ensures
        r@.len() == samples(i as int, n as int).len(),
        forall|s: int| 0 <= s < r@.len() ==> #[trigger] r@[s] == samples(i as int, n as int)[s] && r@[s] < n,
{
    let size: usize = if MAX_SAMPLE < n - 1 {
        MAX_SAMPLE
    } else {
        n - 1
    };
    let stride: usize = n / size + 1;
    assert(n / size <= n) by (nonlinear_arith)
        requires
            size >= 1,
    ;
    let mut out: Vec<usize> = Vec::with_capacity(size);
    let mut s: usize = 0;
    proof {
        vstd::arithmetic::div_mod::lemma_fundamental_div_mod(n as int, size as int);
    }
    while s < size
        invariant
            s <= size,
            size == sample_size(n as int),
            1 <= size <= 32,
            stride == n as int / size as int + 1,
            size * (n as int / size as int) <= n,
            MIN_BATCH <= n <= usize::MAX / 4,
            i < n,
            out@.len() == s,
            forall|k: int|
                0 <= k < out@.len() ==> #[trigger] out@[k] == samples(i as int, n as int)[k] && out@[k] < n,
        decreases size - s,
    {
        assert(s * stride <= n + size) by (nonlinear_arith)
            requires
                s < size,
                stride == n as int / size as int + 1,
                size * (n as int / size as int) <= n,
                n as int / size as int >= 0,
        ;
        let at: usize = (i + 1 + s * stride) % n;
        out.push(at);
        s += 1;
    }
    out
}

/// The keys by which estimates are ordered: the highest first.
pub open spec fn descending_keys(lids: Seq<Score>) -> Seq<i64> {
    lids.map_values(|lid: Score| (-score::value_key(lid)) as i64)
}

/// The order of a batch by its estimates: the highest first, those of equal
/// estimates as they were. An estimate that is no number stands beyond every
/// number of its sign.
pub open spec fn lid_sorted(lids: Seq<Score>) -> Seq<int> {
    if lids.len() < MIN_BATCH {
        Seq::new(lids.len(), |i: int| i)
    } else {
        order::stable_order(descending_keys(lids)).map_values(|at: u64| at as int)
    }
}

/// The order of a batch by the estimates of its vectors.
pub fn lid_order(lids: &[Score]) -> (r: Vec<usize>)
    ensures
        r@.len() == lids@.len(),
        forall|i: int| 0 <= i < r@.len() ==> #[trigger] r@[i] == lid_sorted(lids@)[i] && r@[i] < lids@.len(),
{
    if lids.len() < MIN_BATCH {
        let mut out: Vec<usize> = Vec::with_capacity(lids.len());
        let mut i: usize = 0;
        while i < lids.len()
            invariant
                i <= lids@.len(),
                out@.len() == i,
                forall|k: int| 0 <= k < i ==> #[trigger] out@[k] == k,
            decreases lids@.len() - i,
        {
            out.push(i);
            i += 1;
        }
        return out;
    }
    let mut keys: Vec<i64> = Vec::with_capacity(lids.len());
    let mut i: usize = 0;
    while i < lids.len()
        invariant
            i <= lids@.len(),
            keys@ == descending_keys(lids@).take(i as int),
        decreases lids@.len() - i,
    {
        keys.push(-score::value_rank(lids[i]));
        i += 1;
    }
    assert(keys@ =~= descending_keys(lids@));
    proof {
        order::law_stable_order(keys@);
    }
    order::stable_order_of(keys.as_slice())
}

/// Whether a position is the last of an id.
pub open spec fn is_last_position(ids: Seq<PointId>, id: PointId, at: int) -> bool {
    0 <= at < ids.len() && ids[at] == id && forall|k: int| at < k < ids.len() ==> #[trigger] ids[k] != id
}

/// The entries of a batch.
pub open spec fn batch_view(entries: Seq<(PointId, Vec<Score>)>) -> Seq<(PointId, Seq<Score>)> {
    entries.map_values(|entry: (PointId, Vec<Score>)| (entry.0, entry.1@))
}

impl HNSWIndex {
    /// Sorts a batch by the estimates of its vectors: the highest first, those of
    /// equal estimates as they were; a small batch stays as it is.
    pub fn sort_by_lid(entries: &mut Vec<(PointId, Vec<Score>)>, lids: &[Score])
        requires
            old(entries)@.len() == lids@.len(),
        ensures
            batch_view(final(entries)@) == Seq::new(
                lids@.len(),
                |i: int| batch_view(old(entries)@)[lid_sorted(lids@)[i]],
            ),
    {
        let order: Vec<usize> = lid_order(lids);
        let ghost goal = Seq::new(lids@.len(), |i: int| batch_view(entries@)[lid_sorted(lids@)[i]]);
        let mut sorted: Vec<(PointId, Vec<Score>)> = Vec::with_capacity(order.len());
        let mut i: usize = 0;
        while i < order.len()
            invariant
                i <= order@.len(),
                order@.len() == lids@.len(),
                entries@.len() == lids@.len(),
                entries@ == old(entries)@,
                goal == Seq::new(lids@.len(), |i: int| batch_view(entries@)[lid_sorted(lids@)[i]]),
                forall|k: int|
                    0 <= k < order@.len() ==> #[trigger] order@[k] == lid_sorted(lids@)[k] && order@[k] < lids@.len(),
                batch_view(sorted@) == goal.take(i as int),
            decreases order@.len() - i,
        {
            let at: usize = order[i];
            let vector: Vec<Score> = entries[at].1.clone();
            assert(vector@ =~= entries@[at as int].1@);
            let ghost before = sorted@;
            sorted.push((entries[at].0, vector));
            assert(batch_view(sorted@) =~= batch_view(before).push((entries@[at as int].0, vector@)));
            assert(batch_view(entries@)[at as int] == (entries@[at as int].0, vector@));
            assert(goal.take(i + 1) =~= goal.take(i as int).push(goal[i as int]));
            i += 1;
        }
        assert(goal.take(i as int) =~= goal);
        *entries = sorted;
    }
}

/// In which order the entries of a batch are inserted: at each place of the batch
/// sorted by estimates, the last entry with the id that stands there.
pub fn batch_order(ids: &[PointId], lids: &[Score]) -> (r: Vec<usize>)
    requires
        ids@.len() == lids@.len(),
    ensures
        r@.len() == ids@.len(),
        forall|i: int|
            0 <= i < r@.len() ==> is_last_position(
                ids@,
                ids@[lid_sorted(lids@)[i]],
                #[trigger] r@[i] as int,
            ),
{
    let order: Vec<usize> = lid_order(lids);
    let mut out: Vec<usize> = Vec::with_capacity(order.len());
    let mut i: usize = 0;
    while i < order.len()
        invariant
            i <= order@.len(),
            order@.len() == ids@.len(),
            out@.len() == i,
            forall|k: int|
                0 <= k < order@.len() ==> #[trigger] order@[k] == lid_sorted(lids@)[k] && order@[k] < ids@.len(),
            forall|k: int|
                0 <= k < i ==> is_last_position(ids@, ids@[lid_sorted(lids@)[k]], #[trigger] out@[k] as int),
        decreases order@.len() - i,
    {
        let at: usize = order[i];
        let mut last: usize = at;
        let mut k: usize = at + 1;
        while k < ids.len()
            invariant
                at < k <= ids@.len(),
                at <= last < k,
                ids@[last as int] == ids@[at as int],
                forall|j: int| last < j < k ==> #[trigger] ids@[j] != ids@[at as int],
            decreases ids@.len() - k,
        {
            if ids[k] == ids[at] {
                last = k;
            }
            k += 1;
        }
        out.push(last);
        i += 1;
    }
    out
}

} // verus!
