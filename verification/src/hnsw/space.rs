//! What the links of a graph are drawn from, and the links themselves.

use vstd::prelude::*;
use crate::arith;
use crate::hnsw::graph;
use crate::hnsw::graph::HNSWIndex;
use crate::hnsw::types::{DistanceMetric, NodeCandidate};
use crate::order;
use crate::score;
use crate::score::Score;

verus! {

/// What the links of a graph depend on besides the links.
pub struct Space {
    pub vectors: Seq<Seq<Score>>,
    pub deleted: Seq<bool>,
    pub metric: DistanceMetric,
    pub m: int,
    pub m0: int,
    pub stored_cap_l0: int,
}

/// The links of a graph: the neighbours of each node in each layer, and the
/// scores of the neighbours in the lowest layer.
#[verifier::ext_equal]
pub struct Links {
    pub layers: Seq<Seq<Seq<usize>>>,
    pub dists: Seq<Seq<Score>>,
}

impl Links {
    /// The neighbours of a node in a layer.
    pub open spec fn list(self, level: int, node: int) -> Seq<usize> {
        self.layers[level][node]
    }

    /// The links with another list of neighbours.
    pub open spec fn with_list(self, level: int, node: int, list: Seq<usize>) -> Links {
        Links { layers: self.layers.update(level, self.layers[level].update(node, list)), dists: self.dists }
    }

    /// The links with other scores of a node's neighbours in the lowest layer.
    pub open spec fn with_row(self, node: int, row: Seq<Score>) -> Links {
        Links { layers: self.layers, dists: self.dists.update(node, row) }
    }
}

impl Space {
    /// Whether a node exists and is not deleted.
    pub open spec fn live(self, node: int) -> bool {
        0 <= node < self.vectors.len() && !self.deleted[node]
    }

    /// The score of one node from another.
    pub open spec fn raw<F: Fn(&[Score], &[Score]) -> Score>(self, score: F, from: int, to: int) -> Score {
        arith::measure(score, self.vectors[from], self.vectors[to])
    }

    /// The key that orders one node from another.
    pub open spec fn key<F: Fn(&[Score], &[Score]) -> Score>(self, score: F, from: int, to: int) -> Score {
        graph::order_key(self.metric, self.raw(score, from, to))
    }

    /// A node as a candidate for the neighbours of another.
    pub open spec fn candidate<F: Fn(&[Score], &[Score]) -> Score>(
        self,
        score: F,
        from: int,
        to: usize,
    ) -> NodeCandidate {
        NodeCandidate {
            idx: to,
            raw_score: self.raw(score, from, to as int),
            sort_key: self.key(score, from, to as int),
        }
    }

    /// How many neighbours a new node gets in a layer.
    pub open spec fn width(self, level: int) -> int {
        if level == 0 {
            self.m0
        } else {
            self.m
        }
    }

    /// How long a node's list may be in a layer.
    pub open spec fn capacity(self, level: int) -> int {
        if level == 0 {
            self.stored_cap_l0 + 1
        } else {
            self.m + 1
        }
    }

    /// The scores of a node's neighbours: nothing for the node itself.
    pub open spec fn row<F: Fn(&[Score], &[Score]) -> Score>(
        self,
        score: F,
        node: int,
        list: Seq<usize>,
    ) -> Seq<Score> {
        Seq::new(
            list.len(),
            |k: int|
                if list[k] == node {
                    0
                } else {
                    self.raw(score, node, list[k] as int)
                },
        )
    }
}

/// The links with the scores that belong to a list, where it lies in the lowest
/// layer.
pub open spec fn scored<F: Fn(&[Score], &[Score]) -> Score>(
    space: Space,
    score: F,
    links: Links,
    level: int,
    node: int,
) -> Links {
    if level == 0 {
        links.with_row(node, space.row(score, node, links.list(0, node)))
    } else {
        links
    }
}

/// The candidates in ascending order of their keys; candidates of equal keys keep
/// their order. A key that is no number stands beyond every number of its sign.
pub open spec fn sorted_candidates(candidates: Seq<NodeCandidate>) -> Seq<NodeCandidate> {
    let order = order::stable_order(candidate_keys(candidates));
    Seq::new(candidates.len(), |i: int| candidates[order[i] as int])
}

/// The keys of candidates.
pub open spec fn candidate_keys(candidates: Seq<NodeCandidate>) -> Seq<i64> {
    candidates.map_values(|c: NodeCandidate| score::value_key(c.sort_key) as i64)
}

/// Sorting keeps the candidates, each as often as it was there, and puts smaller
/// keys first.
pub proof fn law_sorted_candidates(candidates: Seq<NodeCandidate>)
    requires
        candidates.len() <= u64::MAX,
    ensures
        sorted_candidates(candidates).len() == candidates.len(),
        forall|i: int|
            0 <= i < candidates.len() ==> candidates.contains(#[trigger] sorted_candidates(candidates)[i]),
        forall|c: NodeCandidate|
            candidates.contains(c) ==> #[trigger] sorted_candidates(candidates).contains(c),
        forall|i: int, j: int|
            0 <= i < j < candidates.len() ==> score::value_key(
                (#[trigger] sorted_candidates(candidates)[i]).sort_key,
            ) <= score::value_key((#[trigger] sorted_candidates(candidates)[j]).sort_key),
{
    let keys = candidate_keys(candidates);
    let order = order::stable_order(keys);
    let out = sorted_candidates(candidates);
    order::law_stable_order(keys);
    assert forall|i: int| 0 <= i < candidates.len() implies candidates.contains(#[trigger] out[i]) by {
        assert(out[i] == candidates[order[i] as int]);
    }
    assert forall|c: NodeCandidate| candidates.contains(c) implies #[trigger] out.contains(c) by {
        let k = choose|k: int| 0 <= k < candidates.len() && candidates[k] == c;
        let pairs = order::keyed_positions(keys);
        order::law_sorted_pairs(pairs);
        assert(pairs.contains(pairs[k]));
        let sorted = order::sorted_pairs(pairs);
        assert(sorted.contains(pairs[k]));
        let i = choose|i: int| 0 <= i < sorted.len() && sorted[i] == pairs[k];
        assert(order[i] == k as u64);
        assert(out[i] == c);
    }
    assert forall|i: int, j: int| 0 <= i < j < candidates.len() implies score::value_key(
        (#[trigger] out[i]).sort_key,
    ) <= score::value_key((#[trigger] out[j]).sort_key) by {
        assert(keys[order[i] as int] <= keys[order[j] as int]);
    }
}

/// The candidates in ascending order of their keys.
pub fn pre_sort_candidates(candidates: &[NodeCandidate]) -> (r: Vec<NodeCandidate>)
    ensures
        r@ == sorted_candidates(candidates@),
{
    let mut keys: Vec<i64> = Vec::with_capacity(candidates.len());
    let mut i: usize = 0;
    while i < candidates.len()
        invariant
            i <= candidates@.len(),
            keys@ == candidate_keys(candidates@).take(i as int),
        decreases candidates@.len() - i,
    {
        keys.push(score::value_rank(candidates[i].sort_key));
        i += 1;
    }
    assert(keys@ =~= candidate_keys(candidates@));
    let order: Vec<usize> = order::stable_order_of(keys.as_slice());
    proof {
        order::law_stable_order(keys@);
    }
    let mut out: Vec<NodeCandidate> = Vec::with_capacity(order.len());
    let mut i: usize = 0;
    while i < order.len()
        invariant
            i <= order@.len(),
            order@.len() == candidates@.len(),
            order@.len() == sorted_candidates(candidates@).len(),
            forall|k: int|
                0 <= k < order@.len() ==> #[trigger] order@[k] == order::stable_order(candidate_keys(candidates@))[k]
                    && order@[k] < candidates@.len(),
            out@ == sorted_candidates(candidates@).take(i as int),
        decreases order@.len() - i,
    {
        out.push(candidates[order[i]]);
        i += 1;
    }
    out
}

/// Whether two graphs differ in nothing but their links.
pub open spec fn same_nodes(a: HNSWIndex, b: HNSWIndex) -> bool {
    &&& b == (HNSWIndex { layers: b.layers, edge_dists_l0: b.edge_dists_l0, ..a })
    &&& b.layers@.len() == a.layers@.len()
}

impl HNSWIndex {
    /// What the links depend on besides the links.
    pub open spec fn space(&self) -> Space {
        Space {
            vectors: self.vectors.vectors(),
            deleted: self.deleted@,
            metric: self.metric,
            m: self.m as int,
            m0: self.m0 as int,
            stored_cap_l0: self.stored_cap_l0 as int,
        }
    }

    /// The links.
    pub open spec fn graph(&self) -> Links {
        Links { layers: self.links(), dists: self.dists() }
    }

    /// The score of one node from another.
    pub(crate) fn raw_score<F: Fn(&[Score], &[Score]) -> Score>(&self, score: &F, from: usize, to: usize) -> (r: Score)
        requires
            self.wf(),
            arith::is_measure(*score),
            from < self.nodes(),
            to < self.nodes(),
        ensures
            r == self.space().raw(*score, from as int, to as int),
    {
        arith::apply_measure(score, self.vector_slice(from), self.vector_slice(to))
    }

    /// A node as a candidate for the neighbours of another.
    pub(crate) fn candidate_from<F: Fn(&[Score], &[Score]) -> Score>(&self, score: &F, from: usize, to: usize) -> (r:
        NodeCandidate)
        requires
            self.wf(),
            arith::is_measure(*score),
            from < self.nodes(),
            to < self.nodes(),
        ensures
            r == self.space().candidate(*score, from as int, to),
    {
        let raw: Score = self.raw_score(score, from, to);
        NodeCandidate { idx: to, raw_score: raw, sort_key: self.normalize_score(raw) }
    }

    /// The scores of a node's neighbours.
    pub(crate) fn row_of<F: Fn(&[Score], &[Score]) -> Score>(&self, score: &F, node: usize, list: &[usize]) -> (r: Vec<
        Score,
    >)
        requires
            self.wf(),
            arith::is_measure(*score),
            node < self.nodes(),
            forall|k: int| 0 <= k < list@.len() ==> (#[trigger] list@[k]) < self.nodes(),
        ensures
            r@ == self.space().row(*score, node as int, list@),
    {
        let mut row: Vec<Score> = Vec::with_capacity(list.len());
        let mut k: usize = 0;
        while k < list.len()
            invariant
                k <= list@.len(),
                self.wf(),
                arith::is_measure(*score),
                node < self.nodes(),
                forall|k: int| 0 <= k < list@.len() ==> (#[trigger] list@[k]) < self.nodes(),
                row@ == self.space().row(*score, node as int, list@).take(k as int),
            decreases list@.len() - k,
        {
            let value: Score = if list[k] == node {
                0
            } else {
                self.raw_score(score, node, list[k])
            };
            row.push(value);
            k += 1;
        }
        assert(row@ =~= self.space().row(*score, node as int, list@));
        row
    }

    /// Replaces the neighbours of a node in a layer.
    pub(crate) fn set_list(&mut self, level: usize, node: usize, list: Vec<usize>)
        requires
            old(self).wf(),
            level < old(self).layers@.len(),
            node < old(self).nodes(),
            forall|k: int| 0 <= k < list@.len() ==> (#[trigger] list@[k]) < old(self).nodes(),
        ensures
            final(self).wf(),
            same_nodes(*old(self), *final(self)),
            final(self).graph() == old(self).graph().with_list(level as int, node as int, list@),
    {
        let ghost given = list@;
        let ghost before = *self;
        assert(self.layers@[level as int]@.len() == self.nodes());
        self.layers[level].set(node, list);
        proof {
            let after = before.graph().with_list(level as int, node as int, given);
            assert forall|l: int| 0 <= l < self.layers@.len() implies (#[trigger] self.links()[l]) == after.layers[l] by {
                assert(self.links()[l] =~= after.layers[l]);
            }
            assert(self.links() =~= after.layers);
            assert forall|l: int| 0 <= l < self.layers@.len() implies (#[trigger] self.layers@[l])@.len()
                == self.nodes() by {
                assert(before.layers@[l]@.len() == before.nodes());
            }
            let links = self.links();
            assert forall|l: int, i: int, k: int|
                0 <= l < links.len() && 0 <= i < links[l].len() && 0 <= k < links[l][i].len() implies (
            #[trigger] links[l][i][k]) < self.nodes() by {
                if l == level && i == node {
                    assert(links[l][i] == given);
                } else {
                    assert(links[l][i] == before.links()[l][i]);
                    assert(before.links()[l][i][k] < before.nodes());
                }
            }
        }
    }

    /// Replaces the scores of a node's neighbours in the lowest layer.
    pub(crate) fn set_row(&mut self, node: usize, row: Vec<Score>)
        requires
            old(self).wf(),
            node < old(self).nodes(),
        ensures
            final(self).wf(),
            same_nodes(*old(self), *final(self)),
            final(self).graph() == old(self).graph().with_row(node as int, row@),
    {
        self.edge_dists_l0.set(node, row);
        assert(self.dists() =~= old(self).dists().update(node as int, row@));
        assert(self.links() == old(self).links());
    }

    /// Replaces the neighbours of a node in a layer, with their scores where it is
    /// the lowest.
    pub(crate) fn relink<F: Fn(&[Score], &[Score]) -> Score>(
        &mut self,
        score: &F,
        level: usize,
        node: usize,
        list: Vec<usize>,
    )
        requires
            old(self).wf(),
            arith::is_measure(*score),
            level < old(self).layers@.len(),
            node < old(self).nodes(),
            forall|k: int| 0 <= k < list@.len() ==> (#[trigger] list@[k]) < old(self).nodes(),
        ensures
            final(self).wf(),
            same_nodes(*old(self), *final(self)),
            final(self).graph() == scored(
                old(self).space(),
                *score,
                old(self).graph().with_list(level as int, node as int, list@),
                level as int,
                node as int,
            ),
    {
        if level == 0 {
            let row: Vec<Score> = self.row_of(score, node, list.as_slice());
            self.set_list(level, node, list);
            self.set_row(node, row);
        } else {
            self.set_list(level, node, list);
        }
        proof {
            assert(old(self).layers@[level as int]@.len() == old(self).nodes());
        }
    }
}

} // verus!
