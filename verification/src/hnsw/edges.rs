//! Edges added one at a time.

use vstd::prelude::*;
use crate::arith;
use crate::hnsw::graph::HNSWIndex;
use crate::hnsw::link;
use crate::hnsw::select;
use crate::hnsw::select::Selection;
use crate::hnsw::space;
use crate::hnsw::space::{Links, Space};
use crate::hnsw::types::{NodeCandidate, PointId};
use crate::score::Score;

verus! {

/// The live nodes of a list as candidates for the neighbours of a node.
pub open spec fn live_candidates<F: Fn(&[Score], &[Score]) -> Score>(
    space: Space,
    score: F,
    node: int,
    list: Seq<usize>,
) -> Seq<NodeCandidate>
    decreases list.len(),
{
    if list.len() == 0 {
        Seq::empty()
    } else {
        let before = live_candidates(space, score, node, list.drop_last());
        if space.live(list.last() as int) {
            before.push(space.candidate(score, node, list.last()))
        } else {
            before
        }
    }
}

/// The links with a node's list sorted by its keys and without deleted nodes;
/// unchanged where it has at most one neighbour or is deleted itself.
pub open spec fn resorted<F: Fn(&[Score], &[Score]) -> Score>(
    space: Space,
    score: F,
    links: Links,
    level: int,
    node: int,
) -> Links {
    let list = links.list(level, node);
    if list.len() <= 1 || !space.live(node) {
        links
    } else {
        let sorted = link::candidate_nodes(
            space::sorted_candidates(live_candidates(space, score, node, list)),
        );
        space::scored(space, score, links.with_list(level, node, sorted), level, node)
    }
}

/// A list with one more node, unless it holds it already.
pub open spec fn pushed_unique(list: Seq<usize>, node: usize) -> Seq<usize> {
    if list.contains(node) {
        list
    } else {
        list.push(node)
    }
}

/// The links with an edge from one node to another: it stands in its place by its
/// key, and the list is cut to its capacity where `capping` is set.
pub open spec fn edge_added<F: Fn(&[Score], &[Score]) -> Score, S: Fn(Score, usize) -> Score>(
    space: Space,
    score: F,
    allowance: S,
    floor: int,
    capping: bool,
    links: Links,
    level: usize,
    from: int,
    to: usize,
) -> Links {
    let pushed = links.with_list(
        level as int,
        from,
        pushed_unique(links.list(level as int, from), to),
    );
    let sorted = resorted(space, score, pushed, level as int, from);
    if capping {
        link::capped(space, score, allowance, floor, sorted, level, from)
    } else {
        sorted
    }
}

/// The links with an edge between two nodes in both directions.
pub open spec fn edges_added<F: Fn(&[Score], &[Score]) -> Score, S: Fn(Score, usize) -> Score>(
    space: Space,
    score: F,
    allowance: S,
    floor: int,
    capping: bool,
    links: Links,
    level: usize,
    a: usize,
    b: usize,
) -> Links {
    let forth = links.with_list(
        level as int,
        a as int,
        pushed_unique(links.list(level as int, a as int), b),
    );
    let both = forth.with_list(
        level as int,
        b as int,
        pushed_unique(forth.list(level as int, b as int), a),
    );
    let sorted = resorted(
        space,
        score,
        resorted(space, score, both, level as int, a as int),
        level as int,
        b as int,
    );
    if capping {
        link::capped(
            space,
            score,
            allowance,
            floor,
            link::capped(space, score, allowance, floor, sorted, level, a as int),
            level,
            b as int,
        )
    } else {
        sorted
    }
}

impl HNSWIndex {
    /// Adds a node to a list that does not hold it.
    fn push_unique(&mut self, level: usize, node: usize, new: usize)
        requires
            old(self).wf(),
            level < old(self).layers@.len(),
            node < old(self).nodes(),
            new < old(self).nodes(),
        ensures
            final(self).wf(),
            space::same_nodes(*old(self), *final(self)),
            final(self).graph() == old(self).graph().with_list(
                level as int,
                node as int,
                pushed_unique(old(self).graph().list(level as int, node as int), new),
            ),
    {
        assert(self.layers@[level as int]@.len() == self.nodes());
        let mut list: Vec<usize> = self.layers[level][node].clone();
        assert(list@ =~= self.links()[level as int][node as int]);
        assert forall|k: int| 0 <= k < list@.len() implies (#[trigger] list@[k]) < self.nodes() by {
            assert(self.links()[level as int][node as int][k] < self.nodes());
        }
        if !select::holds(list.as_slice(), new) {
            list.push(new);
        }
        self.set_list(level, node, list);
    }

    /// Sorts a node's list by its keys and drops deleted nodes from it.
    pub fn sort_layer_neighbors<F: Fn(&[Score], &[Score]) -> Score>(&mut self, score: &F, level: usize, node: usize)
        requires
            old(self).wf(),
            arith::is_measure(*score),
            level < old(self).layers@.len(),
            node < old(self).nodes(),
        ensures
            final(self).wf(),
            space::same_nodes(*old(self), *final(self)),
            final(self).graph() == resorted(
                old(self).space(),
                *score,
                old(self).graph(),
                level as int,
                node as int,
            ),
    {
        let ghost list = self.links()[level as int][node as int];
        let ghost space = self.space();
        assert(self.layers@[level as int]@.len() == self.nodes());
        let length: usize = self.layers[level][node].len();
        assert(length == list.len());
        if length <= 1 || self.deleted[node] {
            return ;
        }
        let mut candidates: Vec<NodeCandidate> = Vec::with_capacity(length);
        let mut k: usize = 0;
        while k < length
            invariant
                k <= length,
                self.wf(),
                arith::is_measure(*score),
                level < self.layers@.len(),
                node < self.nodes(),
                space == self.space(),
                self.layers@[level as int]@.len() == self.nodes(),
                list == self.links()[level as int][node as int],
                list == self.layers@[level as int]@[node as int]@,
                length == list.len(),
                candidates@ == live_candidates(space, *score, node as int, list.take(k as int)),
                link::within(candidates@, self.nodes()),
            decreases length - k,
        {
            let neighbor: usize = self.layers[level][node][k];
            assert(self.links()[level as int][node as int][k as int] < self.nodes());
            assert(list.take(k + 1).drop_last() =~= list.take(k as int));
            assert(list.take(k + 1).last() == neighbor);
            if !self.deleted[neighbor] {
                candidates.push(self.candidate_from(score, node, neighbor));
            }
            k += 1;
        }
        assert(list.take(k as int) =~= list);
        let sorted: Vec<NodeCandidate> = space::pre_sort_candidates(candidates.as_slice());
        proof {
            let n = candidates.len();
            link::lemma_sorted_within(candidates@, self.nodes());
        }
        let nodes: Vec<usize> = link::nodes_of(sorted.as_slice());
        assert forall|k: int| 0 <= k < nodes@.len() implies (#[trigger] nodes@[k]) < self.nodes() by {
            assert(sorted@[k].idx < self.nodes());
        }
        self.relink(score, level, node, nodes);
    }

    /// Adds an edge from one node to another.
    pub(crate) fn link_one_way<F: Fn(&[Score], &[Score]) -> Score, S: Fn(Score, usize) -> Score>(
        &mut self,
        score: &F,
        selection: &Selection<'_, S>,
        capping: bool,
        level: usize,
        from: usize,
        to: usize,
    )
        requires
            old(self).wf(),
            arith::is_measure(*score),
            arith::is_scaling(*selection.allowance),
            level < old(self).layers@.len(),
            from < old(self).nodes(),
            to < old(self).nodes(),
            capping ==> old(self).capacity(level as int) <= usize::MAX,
        ensures
            final(self).wf(),
            space::same_nodes(*old(self), *final(self)),
            final(self).graph() == edge_added(
                old(self).space(),
                *score,
                *selection.allowance,
                selection.floor as int,
                capping,
                old(self).graph(),
                level,
                from as int,
                to,
            ),
    {
        self.push_unique(level, from, to);
        self.sort_layer_neighbors(score, level, from);
        if capping {
            self.cap_layer_neighbors(score, selection, level, from);
        }
    }

    /// Adds an edge from one point to another, if both have nodes.
    pub fn add_one_way_edge<F: Fn(&[Score], &[Score]) -> Score, S: Fn(Score, usize) -> Score>(
        &mut self,
        score: &F,
        selection: &Selection<'_, S>,
        capping: bool,
        level: usize,
        from: PointId,
        to: PointId,
    )
        requires
            old(self).wf(),
            arith::is_measure(*score),
            arith::is_scaling(*selection.allowance),
            level < old(self).layers@.len(),
            capping ==> old(self).capacity(level as int) <= usize::MAX,
        ensures
            final(self).wf(),
            space::same_nodes(*old(self), *final(self)),
            final(self).graph() == match (old(self).node_of(from), old(self).node_of(to)) {
                (Some(a), Some(b)) => edge_added(
                    old(self).space(),
                    *score,
                    *selection.allowance,
                    selection.floor as int,
                    capping,
                    old(self).graph(),
                    level,
                    a,
                    b as usize,
                ),
                _ => old(self).graph(),
            },
    {
        match (self.idx_of(from), self.idx_of(to)) {
            (Some(a), Some(b)) => {
                self.link_one_way(score, selection, capping, level, a, b);
            },
            _ => {},
        }
    }

    /// Adds an edge between two points in both directions, if both have nodes.
    pub fn add_bidirectional_edge<F: Fn(&[Score], &[Score]) -> Score, S: Fn(Score, usize) -> Score>(
        &mut self,
        score: &F,
        selection: &Selection<'_, S>,
        capping: bool,
        level: usize,
        a: PointId,
        b: PointId,
    )
        requires
            old(self).wf(),
            arith::is_measure(*score),
            arith::is_scaling(*selection.allowance),
            level < old(self).layers@.len(),
            capping ==> old(self).capacity(level as int) <= usize::MAX,
        ensures
            final(self).wf(),
            space::same_nodes(*old(self), *final(self)),
            final(self).graph() == match (old(self).node_of(a), old(self).node_of(b)) {
                (Some(x), Some(y)) => edges_added(
                    old(self).space(),
                    *score,
                    *selection.allowance,
                    selection.floor as int,
                    capping,
                    old(self).graph(),
                    level,
                    x as usize,
                    y as usize,
                ),
                _ => old(self).graph(),
            },
    {
        match (self.idx_of(a), self.idx_of(b)) {
            (Some(x), Some(y)) => {
                self.push_unique(level, x, y);
                self.push_unique(level, y, x);
                self.sort_layer_neighbors(score, level, x);
                self.sort_layer_neighbors(score, level, y);
                if capping {
                    self.cap_layer_neighbors(score, selection, level, x);
                    self.cap_layer_neighbors(score, selection, level, y);
                }
            },
            _ => {},
        }
    }

    /// Computes the scores of every node's neighbours in the lowest layer; those of
    /// a node without neighbours stay as they are.
    pub fn build_edge_distances<F: Fn(&[Score], &[Score]) -> Score>(&mut self, score: &F)
        requires
            old(self).wf(),
            arith::is_measure(*score),
        ensures
            final(self).wf(),
            space::same_nodes(*old(self), *final(self)),
            final(self).links() == old(self).links(),
            forall|i: int|
                0 <= i < final(self).nodes() ==> #[trigger] final(self).dists()[i] == if old(self).links()[0][i].len()
                    == 0 {
                    old(self).dists()[i]
                } else {
                    old(self).space().row(*score, i, old(self).links()[0][i])
                },
    {
        let ghost before = *self;
        let n: usize = self.len();
        let mut i: usize = 0;
        while i < n
            invariant
                i <= n,
                n == self.nodes(),
                self.wf(),
                arith::is_measure(*score),
                space::same_nodes(before, *self),
                self.links() == before.links(),
                forall|k: int|
                    0 <= k < n ==> #[trigger] self.dists()[k] == if k >= i || before.links()[0][k].len() == 0 {
                        before.dists()[k]
                    } else {
                        before.space().row(*score, k, before.links()[0][k])
                    },
            decreases n - i,
        {
            let ghost current = *self;
            assert(self.layers@[0]@.len() == self.nodes());
            assert(self.layers@[0]@[i as int]@ == self.links()[0][i as int]);
            if self.layers[0][i].len() > 0 {
                let list: &[usize] = self.layers[0][i].as_slice();
                assert forall|k: int| 0 <= k < list@.len() implies (#[trigger] list@[k]) < self.nodes() by {
                    assert(self.links()[0][i as int][k] < self.nodes());
                }
                let row: Vec<Score> = self.row_of(score, i, list);
                self.set_row(i, row);
            }
            assert forall|k: int| 0 <= k < n implies #[trigger] self.dists()[k] == if k >= i + 1
                || before.links()[0][k].len() == 0 {
                before.dists()[k]
            } else {
                before.space().row(*score, k, before.links()[0][k])
            } by {
                assert(self.graph().dists[k] == self.dists()[k]);
                assert(current.graph().dists[k] == current.dists()[k]);
            }
            assert(self.graph().layers == current.graph().layers);
            i += 1;
        }
    }
}

} // verus!
