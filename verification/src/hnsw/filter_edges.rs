//! Edges from a point to others that share its payload values.

use vstd::prelude::*;
use rand::seq::IteratorRandom;
use crate::arith;
use crate::hnsw::descend;
use crate::hnsw::edges;
use crate::hnsw::graph::HNSWIndex;
use crate::hnsw::select::Selection;
use crate::hnsw::space;
use crate::hnsw::space::{Links, Space};
use crate::hnsw::types::{NodeCandidate, PointId};
use crate::score;
use crate::score::Score;

verus! {

/// `rand::seq::IteratorRandom::choose_multiple` over the ids, with the generator of
/// the thread: it returns as many of them as asked for, each at most as often as
/// it is there. Which ones, and in what order, is left to chance.
#[verifier::external_body]
fn choose_multiple(ids: &[PointId], amount: usize) -> (r: Vec<PointId>)
    requires
        amount <= ids@.len(),
    ensures
        r@.len() == amount,
        r@.to_multiset().subset_of(ids@.to_multiset()),
{
    ids.iter().copied().choose_multiple(&mut rand::rng(), amount)
}

/// The points of a list that a point may be linked to: all but itself that have a
/// node that is not deleted.
pub open spec fn eligible(index: HNSWIndex, point_id: PointId, ids: Seq<PointId>) -> Seq<PointId>
    decreases ids.len(),
{
    if ids.len() == 0 {
        Seq::empty()
    } else {
        let before = eligible(index, point_id, ids.drop_last());
        if is_eligible(index, point_id, ids.last()) {
            before.push(ids.last())
        } else {
            before
        }
    }
}

/// Whether a point may be linked to another.
pub open spec fn is_eligible(index: HNSWIndex, point_id: PointId, id: PointId) -> bool {
    id != point_id && index.node_of(id) is Some && index.present(index.node_of(id)->0)
}

/// Whether `sample` may stand for the points of a list: all that are eligible
/// where the list is short, some of them, up to the limit, where it is long.
pub open spec fn is_sample(
    index: HNSWIndex,
    point_id: PointId,
    ids: Seq<PointId>,
    limit: int,
    sample: Seq<PointId>,
) -> bool {
    let all = eligible(index, point_id, ids);
    if ids.len() <= limit {
        sample == all
    } else {
        &&& sample.len() == if limit < all.len() {
            limit
        } else {
            all.len() as int
        }
        &&& sample.to_multiset().subset_of(all.to_multiset())
    }
}

/// How many points of a list are looked at.
pub open spec fn sample_limit(m0: int) -> int {
    if 2 * m0 <= usize::MAX {
        2 * m0
    } else {
        usize::MAX as int
    }
}

/// The nodes of points as candidates from a query.
pub open spec fn query_candidates<F: Fn(&[Score], &[Score]) -> Score>(
    index: HNSWIndex,
    score: F,
    query: Seq<Score>,
    ids: Seq<PointId>,
) -> Seq<NodeCandidate> {
    Seq::new(
        ids.len(),
        |i: int|
            NodeCandidate {
                idx: index.node_of(ids[i])->0 as usize,
                raw_score: arith::measure(score, query, index.vectors.vectors()[index.node_of(ids[i])->0]),
                sort_key: descend::query_key(index.space(), score, query, index.node_of(ids[i])->0),
            },
    )
}

/// The nodes of the points of a sample that are closest to a query, up to `m0`.
pub open spec fn closest<F: Fn(&[Score], &[Score]) -> Score>(
    index: HNSWIndex,
    score: F,
    query: Seq<Score>,
    sample: Seq<PointId>,
) -> Seq<NodeCandidate> {
    let sorted = space::sorted_candidates(query_candidates(index, score, query, sample));
    sorted.take(if index.m0 < sorted.len() { index.m0 as int } else { sorted.len() as int })
}

/// The targets found so far, with the nodes of candidates that are not among them.
pub open spec fn joined(targets: Seq<usize>, candidates: Seq<NodeCandidate>) -> Seq<usize>
    decreases candidates.len(),
{
    if candidates.len() == 0 {
        targets
    } else {
        edges::pushed_unique(joined(targets, candidates.drop_last()), candidates.last().idx)
    }
}

/// The nodes that samples give a point as targets of its edges.
pub open spec fn targets<F: Fn(&[Score], &[Score]) -> Score>(
    index: HNSWIndex,
    score: F,
    query: Seq<Score>,
    samples: Seq<Seq<PointId>>,
) -> Seq<usize>
    decreases samples.len(),
{
    if samples.len() == 0 {
        Seq::empty()
    } else {
        joined(
            targets(index, score, query, samples.drop_last()),
            closest(index, score, query, samples.last()),
        )
    }
}

/// The links with edges from a node to each of the targets in the lowest layer.
pub open spec fn all_edges_added<F: Fn(&[Score], &[Score]) -> Score, S: Fn(Score, usize) -> Score>(
    space: Space,
    score: F,
    allowance: S,
    floor: int,
    capping: bool,
    links: Links,
    from: int,
    targets: Seq<usize>,
) -> Links
    decreases targets.len(),
{
    if targets.len() == 0 {
        links
    } else {
        edges::edge_added(
            space,
            score,
            allowance,
            floor,
            capping,
            all_edges_added(space, score, allowance, floor, capping, links, from, targets.drop_last()),
            0,
            from,
            targets.last(),
        )
    }
}

/// How many edges a point gets at most.
pub open spec fn edge_limit(m0: int) -> int {
    if m0 > 1 {
        m0
    } else {
        1
    }
}

/// The links with the edges that samples give a point; unchanged where it has no
/// node.
pub open spec fn filter_edges_added<F: Fn(&[Score], &[Score]) -> Score, S: Fn(Score, usize) -> Score>(
    index: HNSWIndex,
    score: F,
    allowance: S,
    floor: int,
    capping: bool,
    point_id: PointId,
    query: Seq<Score>,
    samples: Seq<Seq<PointId>>,
) -> Links {
    let all = targets(index, score, query, samples);
    let limit = edge_limit(index.m0 as int);
    match index.node_of(point_id) {
        None => index.graph(),
        Some(node) => all_edges_added(
            index.space(),
            score,
            allowance,
            floor,
            capping,
            index.graph(),
            node,
            all.take(if limit < all.len() { limit } else { all.len() as int }),
        ),
    }
}

/// Whether the score of a point from the query is a number, where it has a node
/// that is not deleted.
pub open spec fn scorable<F: Fn(&[Score], &[Score]) -> Score>(
    index: HNSWIndex,
    score: F,
    query: Seq<Score>,
    id: PointId,
) -> bool {
    index.node_of(id) is Some && index.present(index.node_of(id)->0) ==> !score::nan(
        arith::measure(score, query, index.vectors.vectors()[index.node_of(id)->0]),
    )
}

proof fn lemma_eligible(index: HNSWIndex, point_id: PointId, ids: Seq<PointId>)
    ensures
        forall|i: int|
            0 <= i < eligible(index, point_id, ids).len() ==> is_eligible(
                index,
                point_id,
                #[trigger] eligible(index, point_id, ids)[i],
            ) && ids.contains(eligible(index, point_id, ids)[i]),
        eligible(index, point_id, ids).len() <= ids.len(),
    decreases ids.len(),
{
    if ids.len() > 0 {
        lemma_eligible(index, point_id, ids.drop_last());
        let before = eligible(index, point_id, ids.drop_last());
        let out = eligible(index, point_id, ids);
        assert forall|i: int| 0 <= i < out.len() implies is_eligible(index, point_id, #[trigger] out[i]) && ids.contains(
            out[i],
        ) by {
            if i < before.len() {
                assert(out[i] == before[i]);
                let rest = ids.drop_last();
                assert(rest.contains(before[i]));
                let k = choose|k: int| 0 <= k < rest.len() && rest[k] == before[i];
                assert(ids[k] == out[i]);
            } else {
                assert(ids[ids.len() - 1] == out[i]);
            }
        }
    }
}

/// A sample holds eligible points of the list only.
pub proof fn law_samples_are_eligible(
    index: HNSWIndex,
    point_id: PointId,
    ids: Seq<PointId>,
    limit: int,
    sample: Seq<PointId>,
)
    requires
        is_sample(index, point_id, ids, limit, sample),
    ensures
        forall|i: int|
            0 <= i < sample.len() ==> is_eligible(index, point_id, #[trigger] sample[i]) && ids.contains(sample[i]),
{
    broadcast use vstd::seq_lib::group_to_multiset_ensures;

    let all = eligible(index, point_id, ids);
    lemma_eligible(index, point_id, ids);
    assert forall|i: int| 0 <= i < sample.len() implies is_eligible(index, point_id, #[trigger] sample[i])
        && ids.contains(sample[i]) by {
        if ids.len() > limit {
            assert(sample.contains(sample[i]));
            assert(sample.to_multiset().count(sample[i]) > 0);
            assert(all.to_multiset().count(sample[i]) > 0);
            assert(all.contains(sample[i]));
            let k = choose|k: int| 0 <= k < all.len() && all[k] == sample[i];
            assert(is_eligible(index, point_id, all[k]));
        }
    }
}

impl HNSWIndex {
    /// The points of a list that a point may be linked to.
    fn eligible_points(&self, point_id: PointId, ids: &[PointId]) -> (r: Vec<PointId>)
        requires
            self.wf(),
        ensures
            r@ == eligible(*self, point_id, ids@),
    {
        let mut out: Vec<PointId> = Vec::new();
        let mut i: usize = 0;
        while i < ids.len()
            invariant
                i <= ids@.len(),
                self.wf(),
                out@ == eligible(*self, point_id, ids@.take(i as int)),
            decreases ids@.len() - i,
        {
            assert(ids@.take(i + 1).drop_last() =~= ids@.take(i as int));
            assert(ids@.take(i + 1).last() == ids@[i as int]);
            if ids[i] != point_id && self.get_vector(&ids[i]).is_some() {
                out.push(ids[i]);
            }
            i += 1;
        }
        assert(ids@.take(i as int) =~= ids@);
        out
    }

    /// Points that stand for a list: all that are eligible where it is short, some
    /// drawn at random where it is long.
    pub fn sample_points(&self, point_id: PointId, ids: &[PointId]) -> (r: Vec<PointId>)
        requires
            self.wf(),
        ensures
            is_sample(*self, point_id, ids@, sample_limit(self.m0 as int), r@),
    {
        let limit: usize = match self.m0.checked_mul(2) {
            Some(limit) => limit,
            None => usize::MAX,
        };
        let all: Vec<PointId> = self.eligible_points(point_id, ids);
        if ids.len() <= limit {
            all
        } else {
            let amount: usize = if limit < all.len() {
                limit
            } else {
                all.len()
            };
            choose_multiple(all.as_slice(), amount)
        }
    }

    /// The nodes of the points of a sample that are closest to a query.
    fn closest_to<F: Fn(&[Score], &[Score]) -> Score>(&self, score: &F, query: &[Score], sample: &[PointId]) -> (r: Vec<
        NodeCandidate,
    >)
        requires
            self.wf(),
            arith::is_measure(*score),
            forall|i: int|
                0 <= i < sample@.len() ==> self.node_of(#[trigger] sample@[i]) is Some && self.present(
                    self.node_of(sample@[i])->0,
                ),
        ensures
            r@ == closest(*self, *score, query@, sample@),
            forall|i: int| 0 <= i < r@.len() ==> (#[trigger] r@[i]).idx < self.nodes(),
    {
        let ghost goal = query_candidates(*self, *score, query@, sample@);
        let mut candidates: Vec<NodeCandidate> = Vec::with_capacity(sample.len());
        let mut i: usize = 0;
        while i < sample.len()
            invariant
                i <= sample@.len(),
                self.wf(),
                arith::is_measure(*score),
                goal == query_candidates(*self, *score, query@, sample@),
                forall|i: int|
                    0 <= i < sample@.len() ==> self.node_of(#[trigger] sample@[i]) is Some && self.present(
                        self.node_of(sample@[i])->0,
                    ),
                candidates@ == goal.take(i as int),
                forall|k: int| 0 <= k < candidates@.len() ==> (#[trigger] candidates@[k]).idx < self.nodes(),
            decreases sample@.len() - i,
        {
            assert(self.node_of(sample@[i as int]) is Some);
            if let Some(node) = self.idx_of(sample[i]) {
                let raw: Score = arith::apply_measure(score, query, self.vector_slice(node));
                candidates.push(NodeCandidate { idx: node, raw_score: raw, sort_key: self.normalize_score(raw) });
            }
            i += 1;
        }
        assert(candidates@ =~= goal);
        let mut sorted: Vec<NodeCandidate> = space::pre_sort_candidates(candidates.as_slice());
        proof {
            let n = candidates.len();
            space::law_sorted_candidates(candidates@);
            assert forall|i: int| 0 <= i < sorted@.len() implies (#[trigger] sorted@[i]).idx < self.nodes() by {
                assert(candidates@.contains(sorted@[i]));
            }
        }
        if self.m0 < sorted.len() {
            sorted.truncate(self.m0);
        }
        assert(sorted@ =~= closest(*self, *score, query@, sample@));
        sorted
    }

    /// The nodes that samples give a point as targets of its edges: of each sample
    /// the closest to the query, each node once.
    pub fn filter_edge_targets<F: Fn(&[Score], &[Score]) -> Score>(
        &self,
        score: &F,
        query: &[Score],
        samples: &[Vec<PointId>],
    ) -> (r: Vec<usize>)
        requires
            self.wf(),
            arith::is_measure(*score),
            forall|k: int, i: int|
                0 <= k < samples@.len() && 0 <= i < samples@[k]@.len() ==> self.node_of(#[trigger] samples@[k]@[i])
                    is Some && self.present(self.node_of(samples@[k]@[i])->0) && (samples@[k]@.len() > 1 ==> scorable(
                    *self,
                    *score,
                    query@,
                    samples@[k]@[i],
                )),
        ensures
            r@ == targets(*self, *score, query@, lists_of(samples@)),
            forall|i: int| 0 <= i < r@.len() ==> (#[trigger] r@[i]) < self.nodes(),
    {
        let ghost lists = lists_of(samples@);
        let mut found: Vec<usize> = Vec::new();
        let mut k: usize = 0;
        while k < samples.len()
            invariant
                k <= samples@.len(),
                lists == lists_of(samples@),
                self.wf(),
                arith::is_measure(*score),
                forall|k: int, i: int|
                    0 <= k < samples@.len() && 0 <= i < samples@[k]@.len() ==> self.node_of(
                        #[trigger] samples@[k]@[i],
                    ) is Some && self.present(self.node_of(samples@[k]@[i])->0) && (samples@[k]@.len() > 1 ==> scorable(
                        *self,
                        *score,
                        query@,
                        samples@[k]@[i],
                    )),
                found@ == targets(*self, *score, query@, lists.take(k as int)),
                forall|i: int| 0 <= i < found@.len() ==> (#[trigger] found@[i]) < self.nodes(),
            decreases samples@.len() - k,
        {
            let sample: &[PointId] = samples[k].as_slice();
            assert(lists.take(k + 1).drop_last() =~= lists.take(k as int));
            assert(lists.take(k + 1).last() == sample@);
            assert forall|i: int| 0 <= i < sample@.len() implies self.node_of(#[trigger] sample@[i]) is Some
                && self.present(self.node_of(sample@[i])->0) by {
                assert(self.node_of(samples@[k as int]@[i]) is Some);
            }
            let best: Vec<NodeCandidate> = self.closest_to(score, query, sample);
            let ghost start = found@;
            let mut i: usize = 0;
            while i < best.len()
                invariant
                    i <= best@.len(),
                    forall|i: int| 0 <= i < best@.len() ==> (#[trigger] best@[i]).idx < self.nodes(),
                    forall|i: int| 0 <= i < found@.len() ==> (#[trigger] found@[i]) < self.nodes(),
                    found@ == joined(start, best@.take(i as int)),
                decreases best@.len() - i,
            {
                assert(best@.take(i + 1).drop_last() =~= best@.take(i as int));
                assert(best@.take(i + 1).last() == best@[i as int]);
                if !crate::hnsw::select::holds(found.as_slice(), best[i].idx) {
                    found.push(best[i].idx);
                }
                i += 1;
            }
            assert(best@.take(i as int) =~= best@);
            k += 1;
        }
        assert(lists.take(k as int) =~= lists);
        found
    }

    /// Adds edges from a point to those of the samples that are closest to a query,
    /// as far as the point has a node. The scores of several points are compared, so
    /// each of them is a number.
    pub fn add_filter_edges<F: Fn(&[Score], &[Score]) -> Score, S: Fn(Score, usize) -> Score>(
        &mut self,
        score: &F,
        selection: &Selection<'_, S>,
        capping: bool,
        point_id: PointId,
        query: &[Score],
        samples: &[Vec<PointId>],
    )
        requires
            old(self).wf(),
            arith::is_measure(*score),
            arith::is_scaling(*selection.allowance),
            capping ==> old(self).stored_cap_l0 < usize::MAX,
            forall|k: int, i: int|
                0 <= k < samples@.len() && 0 <= i < samples@[k]@.len() ==> old(self).node_of(
                    #[trigger] samples@[k]@[i],
                ) is Some && old(self).present(old(self).node_of(samples@[k]@[i])->0) && (samples@[k]@.len() > 1 ==> scorable(
                    *old(self),
                    *score,
                    query@,
                    samples@[k]@[i],
                )),
        ensures
            final(self).wf(),
            space::same_nodes(*old(self), *final(self)),
            final(self).graph() == filter_edges_added(
                *old(self),
                *score,
                *selection.allowance,
                selection.floor as int,
                capping,
                point_id,
                query@,
                lists_of(samples@),
            ),
    {
        let all: Vec<usize> = self.filter_edge_targets(score, query, samples);
        let from: usize = match self.idx_of(point_id) {
            Some(node) => node,
            None => {
                return ;
            },
        };
        let limit: usize = if self.m0 > 1 {
            self.m0
        } else {
            1
        };
        let count: usize = if limit < all.len() {
            limit
        } else {
            all.len()
        };
        let ghost chosen = all@.take(count as int);
        let ghost before = *self;
        let ghost floor = selection.floor as int;
        let mut i: usize = 0;
        while i < count
            invariant
                i <= count <= all@.len(),
                chosen == all@.take(count as int),
                floor == selection.floor,
                self.wf(),
                space::same_nodes(before, *self),
                arith::is_measure(*score),
                arith::is_scaling(*selection.allowance),
                capping ==> self.stored_cap_l0 < usize::MAX,
                from < self.nodes(),
                forall|i: int| 0 <= i < all@.len() ==> (#[trigger] all@[i]) < self.nodes(),
                self.graph() == all_edges_added(
                    before.space(),
                    *score,
                    *selection.allowance,
                    floor,
                    capping,
                    before.graph(),
                    from as int,
                    chosen.take(i as int),
                ),
            decreases count - i,
        {
            assert(chosen.take(i + 1).drop_last() =~= chosen.take(i as int));
            assert(chosen.take(i + 1).last() == all@[i as int]);
            self.link_one_way(score, selection, capping, 0, from, all[i]);
            i += 1;
        }
        assert(chosen.take(i as int) =~= chosen);
    }

    /// Adds edges from a point to others that share its payload values: `matches`
    /// holds, for each value, the points that have it. Of a long list some are drawn
    /// at random; the closest of those drawn become neighbours.
    pub fn build_filter_aware_edges<F: Fn(&[Score], &[Score]) -> Score, S: Fn(Score, usize) -> Score>(
        &mut self,
        score: &F,
        selection: &Selection<'_, S>,
        capping: bool,
        point_id: PointId,
        query: &[Score],
        matches: &[Vec<PointId>],
    )
        requires
            old(self).wf(),
            arith::is_measure(*score),
            arith::is_scaling(*selection.allowance),
            capping ==> old(self).stored_cap_l0 < usize::MAX,
            forall|k: int, i: int|
                0 <= k < matches@.len() && 0 <= i < matches@[k]@.len() && eligible(
                    *old(self),
                    point_id,
                    matches@[k]@,
                ).len() > 1 ==> scorable(
                    *old(self),
                    *score,
                    query@,
                    #[trigger] matches@[k]@[i],
                ),
        ensures
            final(self).wf(),
            space::same_nodes(*old(self), *final(self)),
            exists|samples: Seq<Seq<PointId>>| #[trigger]
                sampled(*old(self), point_id, lists_of(matches@), samples)
                    && final(self).graph() == filter_edges_added(
                    *old(self),
                    *score,
                    *selection.allowance,
                    selection.floor as int,
                    capping,
                    point_id,
                    query@,
                    samples,
                ),
    {
        let ghost lists = lists_of(matches@);
        let mut samples: Vec<Vec<PointId>> = Vec::with_capacity(matches.len());
        let mut k: usize = 0;
        while k < matches.len()
            invariant
                k <= matches@.len(),
                lists == lists_of(matches@),
                self.wf(),
                *self == *old(self),
                samples@.len() == k,
                forall|j: int|
                    0 <= j < k ==> is_sample(
                        *self,
                        point_id,
                        lists[j],
                        sample_limit(self.m0 as int),
                        (#[trigger] samples@[j])@,
                    ),
            decreases matches@.len() - k,
        {
            samples.push(self.sample_points(point_id, matches[k].as_slice()));
            k += 1;
        }
        let ghost drawn = lists_of(samples@);
        proof {
            assert forall|j: int| 0 <= j < lists.len() implies is_sample(
                *self,
                point_id,
                lists[j],
                sample_limit(self.m0 as int),
                #[trigger] drawn[j],
            ) by {
                assert(drawn[j] == samples@[j]@);
            }
            assert(sampled(*self, point_id, lists, drawn));
            assert forall|k: int, i: int|
                0 <= k < samples@.len() && 0 <= i < samples@[k]@.len() implies self.node_of(#[trigger] samples@[k]@[i])
                is Some && self.present(self.node_of(samples@[k]@[i])->0) && (samples@[k]@.len() > 1 ==> scorable(
                *self,
                *score,
                query@,
                samples@[k]@[i],
            )) by {
                law_samples_are_eligible(
                    *self,
                    point_id,
                    lists[k],
                    sample_limit(self.m0 as int),
                    samples@[k]@,
                );
                assert(is_eligible(*self, point_id, samples@[k]@[i]));
                assert(lists[k].contains(samples@[k]@[i]));
                let at = choose|at: int| 0 <= at < lists[k].len() && lists[k][at] == samples@[k]@[i];
                assert(matches@[k]@[at] == samples@[k]@[i]);
            }
        }
        self.add_filter_edges(score, selection, capping, point_id, query, samples.as_slice());
    }
}

/// Lists of points.
pub open spec fn lists_of(lists: Seq<Vec<PointId>>) -> Seq<Seq<PointId>> {
    lists.map_values(|list: Vec<PointId>| list@)
}

/// Whether samples may stand for lists of points.
pub open spec fn sampled(
    index: HNSWIndex,
    point_id: PointId,
    lists: Seq<Seq<PointId>>,
    samples: Seq<Seq<PointId>>,
) -> bool {
    &&& samples.len() == lists.len()
    &&& forall|j: int|
        0 <= j < lists.len() ==> is_sample(
            index,
            point_id,
            lists[j],
            sample_limit(index.m0 as int),
            #[trigger] samples[j],
        )
}

} // verus!
