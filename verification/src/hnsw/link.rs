//! How a node is linked into a layer.

use vstd::prelude::*;
use crate::arith;
use crate::hnsw::graph::HNSWIndex;
use crate::hnsw::select;
use crate::hnsw::select::Selection;
use crate::hnsw::space;
use crate::hnsw::space::{Links, Space};
use crate::hnsw::types::NodeCandidate;
use crate::score;
use crate::score::Score;

verus! {

/// The nodes of candidates.
pub open spec fn candidate_nodes(candidates: Seq<NodeCandidate>) -> Seq<usize> {
    candidates.map_values(|c: NodeCandidate| c.idx)
}

/// The candidates of a node found so far, with one more node unless it is
/// deleted or already among them.
pub open spec fn extended_by<F: Fn(&[Score], &[Score]) -> Score>(
    space: Space,
    score: F,
    node: int,
    found: Seq<NodeCandidate>,
    neighbor: usize,
) -> Seq<NodeCandidate> {
    if space.deleted[neighbor as int] || neighbor == node || candidate_nodes(found).contains(neighbor) {
        found
    } else {
        found.push(space.candidate(score, node, neighbor))
    }
}

/// The candidates found so far, with the nodes of a list.
pub open spec fn extended_by_list<F: Fn(&[Score], &[Score]) -> Score>(
    space: Space,
    score: F,
    node: int,
    found: Seq<NodeCandidate>,
    list: Seq<usize>,
) -> Seq<NodeCandidate>
    decreases list.len(),
{
    if list.len() == 0 {
        found
    } else {
        extended_by(space, score, node, extended_by_list(space, score, node, found, list.drop_last()), list.last())
    }
}

/// The candidates found so far, with the neighbours of base nodes.
pub open spec fn extended_by_bases<F: Fn(&[Score], &[Score]) -> Score>(
    space: Space,
    score: F,
    links: Links,
    level: int,
    node: int,
    found: Seq<NodeCandidate>,
    bases: Seq<NodeCandidate>,
) -> Seq<NodeCandidate>
    decreases bases.len(),
{
    if bases.len() == 0 {
        found
    } else {
        extended_by_list(
            space,
            score,
            node,
            extended_by_bases(space, score, links, level, node, found, bases.drop_last()),
            if bases.last().idx < links.layers[level].len() {
                links.list(level, bases.last().idx as int)
            } else {
                Seq::empty()
            },
        )
    }
}

/// The candidates of a node in a layer, with the neighbours of the best ones.
pub open spec fn extended<F: Fn(&[Score], &[Score]) -> Score>(
    space: Space,
    score: F,
    links: Links,
    level: int,
    node: int,
    candidates: Seq<NodeCandidate>,
) -> Seq<NodeCandidate> {
    let width = space.width(level);
    space::sorted_candidates(
        extended_by_bases(
            space,
            score,
            links,
            level,
            node,
            candidates,
            candidates.take(if width < candidates.len() { width } else { candidates.len() as int }),
        ),
    )
}

/// The links with a node's list cut to its capacity, where it is longer.
pub open spec fn capped<F: Fn(&[Score], &[Score]) -> Score, S: Fn(Score, usize) -> Score>(
    space: Space,
    score: F,
    allowance: S,
    floor: int,
    links: Links,
    level: usize,
    node: int,
) -> Links {
    let list = links.list(level as int, node);
    if list.len() <= space.capacity(level as int) {
        links
    } else {
        let candidates = space::sorted_candidates(
            Seq::new(list.len(), |k: int| space.candidate(score, node, list[k])),
        );
        let kept = select::selected(
            space,
            score,
            allowance,
            level,
            floor,
            space.capacity(level as int),
            candidates,
        );
        space::scored(space, score, links.with_list(level as int, node, kept), level as int, node)
    }
}

/// Whether a neighbour stands before a new one in a node's list: it is deleted,
/// or its key is not above the new one's.
pub open spec fn stands_before<F: Fn(&[Score], &[Score]) -> Score>(
    space: Space,
    score: F,
    node: int,
    neighbor: usize,
    new_key: Score,
) -> bool {
    space.live(neighbor as int) ==> not_above(space.key(score, node, neighbor as int), new_key)
}

/// `a <= b` as IEEE-754 defines it.
pub open spec fn not_above(a: Score, b: Score) -> bool {
    !score::nan(a) && !score::nan(b) && score::value_key(a) <= score::value_key(b)
}

/// Where a new neighbour enters a node's list: behind all that stand before it,
/// up to the first that does not.
pub open spec fn entry_position<F: Fn(&[Score], &[Score]) -> Score>(
    space: Space,
    score: F,
    node: int,
    list: Seq<usize>,
    new_key: Score,
) -> int
    decreases list.len(),
{
    if list.len() == 0 {
        0
    } else {
        let before = entry_position(space, score, node, list.drop_last(), new_key);
        if before == list.len() - 1 && stands_before(space, score, node, list.last(), new_key) {
            list.len() as int
        } else {
            before
        }
    }
}

/// The links with one more neighbour in a node's list, in its place by its key;
/// unchanged where the node is deleted.
pub open spec fn back_linked<F: Fn(&[Score], &[Score]) -> Score>(
    space: Space,
    score: F,
    links: Links,
    level: int,
    node: int,
    new: usize,
) -> Links {
    if !space.live(node) {
        links
    } else {
        let list = links.list(level, node);
        let at = entry_position(space, score, node, list, space.key(score, node, new as int));
        space::scored(space, score, links.with_list(level, node, list.insert(at, new)), level, node)
    }
}

/// The links with a new node in the lists of its neighbours, each list cut to its
/// capacity where `capping` is set.
pub open spec fn back_linked_all<F: Fn(&[Score], &[Score]) -> Score, S: Fn(Score, usize) -> Score>(
    space: Space,
    score: F,
    allowance: S,
    floor: int,
    capping: bool,
    links: Links,
    level: usize,
    neighbors: Seq<usize>,
    new: usize,
) -> Links
    decreases neighbors.len(),
{
    if neighbors.len() == 0 {
        links
    } else {
        let before = back_linked_all(
            space,
            score,
            allowance,
            floor,
            capping,
            links,
            level,
            neighbors.drop_last(),
            new,
        );
        let node = neighbors.last() as int;
        let linked = back_linked(space, score, before, level as int, node, new);
        if capping && space.live(node) {
            capped(space, score, allowance, floor, linked, level, node)
        } else {
            linked
        }
    }
}

/// A node followed by its neighbours.
pub open spec fn led_by(node: usize, neighbors: Seq<usize>) -> Seq<usize>
    decreases neighbors.len(),
{
    if neighbors.len() == 0 {
        seq![node]
    } else if neighbors.last() == node {
        led_by(node, neighbors.drop_last())
    } else {
        led_by(node, neighbors.drop_last()).push(neighbors.last())
    }
}

/// The neighbours that a search's candidates give a node in a layer.
pub open spec fn layer_choice<F: Fn(&[Score], &[Score]) -> Score, S: Fn(Score, usize) -> Score>(
    space: Space,
    score: F,
    allowance: S,
    floor: int,
    links: Links,
    level: usize,
    node: usize,
    candidates: Seq<NodeCandidate>,
) -> Seq<usize> {
    select::selected(
        space,
        score,
        allowance,
        level,
        floor,
        space.width(level as int),
        extended(space, score, links, level as int, node as int, space::sorted_candidates(candidates)),
    )
}

/// The links with a node linked into a layer: its own list, cut to its capacity
/// where `capping_own` is set, and the lists of its neighbours.
pub open spec fn layer_linked<F: Fn(&[Score], &[Score]) -> Score, S: Fn(Score, usize) -> Score>(
    space: Space,
    score: F,
    allowance: S,
    floor: int,
    capping_own: bool,
    capping: bool,
    links: Links,
    level: usize,
    node: usize,
    neighbors: Seq<usize>,
) -> Links {
    let own = space::scored(
        space,
        score,
        links.with_list(level as int, node as int, led_by(node, neighbors)),
        level as int,
        node as int,
    );
    let kept = if capping_own {
        capped(space, score, allowance, floor, own, level, node as int)
    } else {
        own
    };
    back_linked_all(space, score, allowance, floor, capping, kept, level, neighbors, node)
}

proof fn lemma_led_within(node: usize, neighbors: Seq<usize>, nodes: nat)
    requires
        node < nodes,
        forall|k: int| 0 <= k < neighbors.len() ==> (#[trigger] neighbors[k]) < nodes,
    ensures
        forall|k: int| 0 <= k < led_by(node, neighbors).len() ==> (#[trigger] led_by(node, neighbors)[k]) < nodes,
    decreases neighbors.len(),
{
    if neighbors.len() > 0 {
        let rest = neighbors.drop_last();
        assert forall|k: int| 0 <= k < rest.len() implies (#[trigger] rest[k]) < nodes by {
            assert(neighbors[k] < nodes);
        }
        lemma_led_within(node, rest, nodes);
        let before = led_by(node, rest);
        let out = led_by(node, neighbors);
        assert forall|k: int| 0 <= k < out.len() implies (#[trigger] out[k]) < nodes by {
            if k < before.len() {
                assert(out[k] == before[k]);
            } else {
                assert(out[k] == neighbors[neighbors.len() - 1]);
            }
        }
    }
}

/// Whether all candidates are nodes.
pub open spec fn within(candidates: Seq<NodeCandidate>, nodes: nat) -> bool {
    forall|i: int| 0 <= i < candidates.len() ==> (#[trigger] candidates[i]).idx < nodes
}

/// The nodes of candidates.
pub(crate) fn nodes_of(candidates: &[NodeCandidate]) -> (r: Vec<usize>)
    ensures
        r@ == candidate_nodes(candidates@),
{
    let mut out: Vec<usize> = Vec::with_capacity(candidates.len());
    let mut i: usize = 0;
    while i < candidates.len()
        invariant
            i <= candidates@.len(),
            out@ == candidate_nodes(candidates@).take(i as int),
        decreases candidates@.len() - i,
    {
        out.push(candidates[i].idx);
        i += 1;
    }
    assert(out@ =~= candidate_nodes(candidates@));
    out
}

/// Whether candidates stand for a node.
fn is_found(candidates: &[NodeCandidate], node: usize) -> (r: bool)
    ensures
        r == candidate_nodes(candidates@).contains(node),
{
    let mut i: usize = 0;
    while i < candidates.len()
        invariant
            i <= candidates@.len(),
            forall|k: int| 0 <= k < i ==> (#[trigger] candidates@[k]).idx != node,
        decreases candidates@.len() - i,
    {
        if candidates[i].idx == node {
            assert(candidate_nodes(candidates@)[i as int] == node);
            return true;
        }
        i += 1;
    }
    assert forall|k: int| 0 <= k < candidate_nodes(candidates@).len() implies candidate_nodes(candidates@)[k]
        != node by {
        assert(candidates@[k].idx != node);
    }
    false
}

pub(crate) proof fn lemma_sorted_within(candidates: Seq<NodeCandidate>, nodes: nat)
    requires
        candidates.len() <= usize::MAX,
        within(candidates, nodes),
    ensures
        within(space::sorted_candidates(candidates), nodes),
{
    space::law_sorted_candidates(candidates);
    let out = space::sorted_candidates(candidates);
    assert forall|i: int| 0 <= i < out.len() implies (#[trigger] out[i]).idx < nodes by {
        assert(candidates.contains(out[i]));
    }
}

proof fn lemma_selected_within<F: Fn(&[Score], &[Score]) -> Score, S: Fn(Score, usize) -> Score>(
    space: Space,
    score: F,
    allowance: S,
    level: usize,
    floor: int,
    m: int,
    candidates: Seq<NodeCandidate>,
    nodes: nat,
)
    requires
        m >= 0,
        within(candidates, nodes),
    ensures
        forall|k: int|
            0 <= k < selected_len(space, score, allowance, level, floor, m, candidates) ==> (
            #[trigger] select::selected(space, score, allowance, level, floor, m, candidates)[k]) < nodes,
{
    select::law_selection(space, score, allowance, level, floor, m, candidates);
}

spec fn selected_len<F: Fn(&[Score], &[Score]) -> Score, S: Fn(Score, usize) -> Score>(
    space: Space,
    score: F,
    allowance: S,
    level: usize,
    floor: int,
    m: int,
    candidates: Seq<NodeCandidate>,
) -> int {
    select::selected(space, score, allowance, level, floor, m, candidates).len() as int
}

impl HNSWIndex {
    /// Adds the nodes of a list to the candidates found so far.
    fn extend_by_list<F: Fn(&[Score], &[Score]) -> Score>(
        &self,
        score: &F,
        node: usize,
        found: &mut Vec<NodeCandidate>,
        list: &[usize],
    )
        requires
            self.wf(),
            arith::is_measure(*score),
            node < self.nodes(),
            within(old(found)@, self.nodes()),
            forall|k: int| 0 <= k < list@.len() ==> (#[trigger] list@[k]) < self.nodes(),
        ensures
            final(found)@ == extended_by_list(self.space(), *score, node as int, old(found)@, list@),
            within(final(found)@, self.nodes()),
    {
        let ghost before = found@;
        let mut j: usize = 0;
        while j < list.len()
            invariant
                j <= list@.len(),
                self.wf(),
                arith::is_measure(*score),
                node < self.nodes(),
                forall|k: int| 0 <= k < list@.len() ==> (#[trigger] list@[k]) < self.nodes(),
                found@ == extended_by_list(self.space(), *score, node as int, before, list@.take(j as int)),
                within(found@, self.nodes()),
            decreases list@.len() - j,
        {
            let neighbor: usize = list[j];
            assert(list@.take(j + 1).drop_last() =~= list@.take(j as int));
            assert(list@.take(j + 1).last() == neighbor);
            if !self.deleted[neighbor] && neighbor != node && !is_found(found.as_slice(), neighbor) {
                found.push(self.candidate_from(score, node, neighbor));
            }
            j += 1;
        }
        assert(list@.take(j as int) =~= list@);
    }

    /// The candidates of a node in a layer, with the neighbours of the best ones.
    pub fn extend_candidates<F: Fn(&[Score], &[Score]) -> Score>(
        &self,
        score: &F,
        candidates: &[NodeCandidate],
        node: usize,
        level: usize,
    ) -> (r: Vec<NodeCandidate>)
        requires
            self.wf(),
            arith::is_measure(*score),
            node < self.nodes(),
            level < self.layers@.len(),
            within(candidates@, self.nodes()),
        ensures
            r@ == extended(self.space(), *score, self.graph(), level as int, node as int, candidates@),
            within(r@, self.nodes()),
    {
        let width: usize = if level == 0 {
            self.m0
        } else {
            self.m
        };
        let base: usize = if width < candidates.len() {
            width
        } else {
            candidates.len()
        };
        let ghost bases = candidates@.take(base as int);
        let mut found: Vec<NodeCandidate> = Vec::with_capacity(candidates.len());
        found.extend_from_slice(candidates);
        assert(found@ =~= candidates@);
        let mut i: usize = 0;
        while i < base
            invariant
                i <= base <= candidates@.len(),
                bases == candidates@.take(base as int),
                self.wf(),
                arith::is_measure(*score),
                node < self.nodes(),
                level < self.layers@.len(),
                within(candidates@, self.nodes()),
                within(found@, self.nodes()),
                found@ == extended_by_bases(
                    self.space(),
                    *score,
                    self.graph(),
                    level as int,
                    node as int,
                    candidates@,
                    bases.take(i as int),
                ),
            decreases base - i,
        {
            let at: usize = candidates[i].idx;
            assert(bases.take(i + 1).drop_last() =~= bases.take(i as int));
            assert(bases.take(i + 1).last() == candidates@[i as int]);
            assert(self.layers@[level as int]@.len() == self.nodes());
            let list: &[usize] = self.layers[level][at].as_slice();
            assert(list@ == self.links()[level as int][at as int]);
            assert forall|k: int| 0 <= k < list@.len() implies (#[trigger] list@[k]) < self.nodes() by {
                assert(self.links()[level as int][at as int][k] < self.nodes());
            }
            self.extend_by_list(score, node, &mut found, list);
            i += 1;
        }
        assert(bases.take(i as int) =~= bases);
        proof {
            let n = found.len();
            lemma_sorted_within(found@, self.nodes());
        }
        space::pre_sort_candidates(found.as_slice())
    }

    /// Cuts a node's list to its capacity, where it is longer.
    pub fn cap_layer_neighbors<F: Fn(&[Score], &[Score]) -> Score, S: Fn(Score, usize) -> Score>(
        &mut self,
        score: &F,
        selection: &Selection<'_, S>,
        level: usize,
        node: usize,
    )
        requires
            old(self).wf(),
            arith::is_measure(*score),
            arith::is_scaling(*selection.allowance),
            level < old(self).layers@.len(),
            node < old(self).nodes(),
            old(self).capacity(level as int) <= usize::MAX,
        ensures
            final(self).wf(),
            space::same_nodes(*old(self), *final(self)),
            final(self).graph() == capped(
                old(self).space(),
                *score,
                *selection.allowance,
                selection.floor as int,
                old(self).graph(),
                level,
                node as int,
            ),
            final(self).graph().list(level as int, node as int).len() <= old(self).capacity(level as int),
    {
        let cap: usize = self.neighbor_list_capacity(level);
        let ghost space = self.space();
        let ghost links = self.graph();
        assert(self.layers@[level as int]@.len() == self.nodes());
        let length: usize = self.layers[level][node].len();
        assert(length == links.list(level as int, node as int).len());
        if length <= cap {
            return ;
        }
        let ghost list = links.list(level as int, node as int);
        let ghost all = Seq::new(list.len(), |k: int| space.candidate(*score, node as int, list[k]));
        let mut candidates: Vec<NodeCandidate> = Vec::with_capacity(length);
        let mut k: usize = 0;
        while k < length
            invariant
                k <= length,
                self.wf(),
                arith::is_measure(*score),
                level < self.layers@.len(),
                node < self.nodes(),
                space == self.space(),
                self.layers@[level as int]@.len() == self.nodes(),
                list == self.links()[level as int][node as int],
                list == self.layers@[level as int]@[node as int]@,
                length == list.len(),
                all == Seq::new(list.len(), |k: int| space.candidate(*score, node as int, list[k])),
                candidates@ == all.take(k as int),
                within(candidates@, self.nodes()),
            decreases length - k,
        {
            let neighbor: usize = self.layers[level][node][k];
            assert(self.links()[level as int][node as int][k as int] < self.nodes());
            candidates.push(self.candidate_from(score, node, neighbor));
            k += 1;
        }
        assert(candidates@ =~= all);
        let sorted: Vec<NodeCandidate> = space::pre_sort_candidates(candidates.as_slice());
        proof {
            let n = candidates.len();
            lemma_sorted_within(candidates@, self.nodes());
            lemma_selected_within(
                space,
                *score,
                *selection.allowance,
                level,
                selection.floor as int,
                cap as int,
                sorted@,
                self.nodes(),
            );
        }
        let kept: Vec<usize> = self.select_diverse_neighbors(score, selection, sorted.as_slice(), cap, level);
        let ghost kept_nodes = kept@;
        self.relink(score, level, node, kept);
        assert(self.graph().list(level as int, node as int) == kept_nodes);
    }

    /// Where a new neighbour enters a node's list.
    fn position_in<F: Fn(&[Score], &[Score]) -> Score>(
        &self,
        score: &F,
        node: usize,
        list: &[usize],
        new_key: Score,
    ) -> (r: usize)
        requires
            self.wf(),
            arith::is_measure(*score),
            node < self.nodes(),
        ensures
            r == entry_position(self.space(), *score, node as int, list@, new_key),
            r <= list@.len(),
    {
        let mut at: usize = 0;
        let mut i: usize = 0;
        while i < list.len()
            invariant
                at <= i <= list@.len(),
                self.wf(),
                arith::is_measure(*score),
                node < self.nodes(),
                at == entry_position(self.space(), *score, node as int, list@.take(i as int), new_key),
            decreases list@.len() - i,
        {
            let neighbor: usize = list[i];
            assert(list@.take(i + 1).drop_last() =~= list@.take(i as int));
            assert(list@.take(i + 1).last() == neighbor);
            let before: bool = if neighbor < self.vectors.len() && !self.deleted[neighbor] {
                let key: Score = self.normalize_score(self.raw_score(score, node, neighbor));
                !score::is_nan(key) && !score::is_nan(new_key) && score::value_rank(key) <= score::value_rank(new_key)
            } else {
                true
            };
            if at == i && before {
                at = i + 1;
            }
            i += 1;
        }
        assert(list@.take(i as int) =~= list@);
        at
    }

    /// Adds a neighbour to a node's list, in its place by its key.
    fn link_back<F: Fn(&[Score], &[Score]) -> Score>(&mut self, score: &F, level: usize, node: usize, new: usize)
        requires
            old(self).wf(),
            arith::is_measure(*score),
            level < old(self).layers@.len(),
            node < old(self).nodes(),
            new < old(self).nodes(),
        ensures
            final(self).wf(),
            space::same_nodes(*old(self), *final(self)),
            final(self).graph() == back_linked(
                old(self).space(),
                *score,
                old(self).graph(),
                level as int,
                node as int,
                new,
            ),
    {
        if self.deleted[node] {
            return ;
        }
        assert(self.layers@[level as int]@.len() == self.nodes());
        let new_key: Score = self.normalize_score(self.raw_score(score, node, new));
        let mut list: Vec<usize> = self.layers[level][node].clone();
        assert(list@ =~= self.links()[level as int][node as int]);
        assert forall|k: int| 0 <= k < list@.len() implies (#[trigger] list@[k]) < self.nodes() by {
            assert(self.links()[level as int][node as int][k] < self.nodes());
        }
        let at: usize = self.position_in(score, node, list.as_slice(), new_key);
        list.insert(at, new);
        self.relink(score, level, node, list);
    }

    /// A node followed by its neighbours.
    fn lead(node: usize, neighbors: &[usize]) -> (r: Vec<usize>)
        ensures
            r@ == led_by(node, neighbors@),
    {
        let mut linked: Vec<usize> = Vec::with_capacity(neighbors.len());
        linked.push(node);
        let mut i: usize = 0;
        while i < neighbors.len()
            invariant
                i <= neighbors@.len(),
                linked@ == led_by(node, neighbors@.take(i as int)),
            decreases neighbors@.len() - i,
        {
            assert(neighbors@.take(i + 1).drop_last() =~= neighbors@.take(i as int));
            if neighbors[i] != node {
                linked.push(neighbors[i]);
            }
            i += 1;
        }
        assert(neighbors@.take(i as int) =~= neighbors@);
        linked
    }

    /// Links a node into a layer by the candidates that a search found there.
    ///
    /// The node's list becomes the node and the neighbours selected among the
    /// candidates and their own neighbours; the node enters the list of each of
    /// them. Lists are cut to their capacity: the node's own where `capping_own` is
    /// set, its neighbours' where `capping` is. Returns the best neighbour.
    pub fn link_layer<F: Fn(&[Score], &[Score]) -> Score, S: Fn(Score, usize) -> Score>(
        &mut self,
        score: &F,
        selection: &Selection<'_, S>,
        capping_own: bool,
        capping: bool,
        level: usize,
        node: usize,
        candidates: &[NodeCandidate],
    ) -> (r: Option<usize>)
        requires
            old(self).wf(),
            arith::is_measure(*score),
            arith::is_scaling(*selection.allowance),
            level < old(self).layers@.len(),
            node < old(self).nodes(),
            within(candidates@, old(self).nodes()),
            capping_own || capping ==> old(self).capacity(level as int) <= usize::MAX,
        ensures
            final(self).wf(),
            space::same_nodes(*old(self), *final(self)),
            ({
                let neighbors = layer_choice(
                    old(self).space(),
                    *score,
                    *selection.allowance,
                    selection.floor as int,
                    old(self).graph(),
                    level,
                    node,
                    candidates@,
                );
                &&& final(self).graph() == layer_linked(
                    old(self).space(),
                    *score,
                    *selection.allowance,
                    selection.floor as int,
                    capping_own,
                    capping,
                    old(self).graph(),
                    level,
                    node,
                    neighbors,
                )
                &&& r is Some <==> neighbors.len() > 0
                &&& r is Some ==> r->0 == neighbors[0]
            }),
            r is Some ==> r->0 < old(self).nodes(),
    {
        let ghost space = self.space();
        let ghost links = self.graph();
        let ghost floor = selection.floor as int;
        proof {
            let n = candidates.len();
            lemma_sorted_within(candidates@, self.nodes());
        }
        let sorted: Vec<NodeCandidate> = space::pre_sort_candidates(candidates);
        let all: Vec<NodeCandidate> = self.extend_candidates(score, sorted.as_slice(), node, level);
        let width: usize = if level == 0 {
            self.m0
        } else {
            self.m
        };
        proof {
            lemma_selected_within(
                space,
                *score,
                *selection.allowance,
                level,
                floor,
                width as int,
                all@,
                self.nodes(),
            );
        }
        let neighbors: Vec<usize> = self.select_diverse_neighbors(score, selection, all.as_slice(), width, level);
        assert(neighbors@ == layer_choice(
            space,
            *score,
            *selection.allowance,
            floor,
            links,
            level,
            node,
            candidates@,
        ));
        let own: Vec<usize> = Self::lead(node, neighbors.as_slice());
        proof {
            lemma_led_within(node, neighbors@, self.nodes());
        }
        self.relink(score, level, node, own);
        if capping_own {
            self.cap_layer_neighbors(score, selection, level, node);
        }
        let ghost kept = self.graph();
        let mut i: usize = 0;
        while i < neighbors.len()
            invariant
                i <= neighbors@.len(),
                self.wf(),
                space::same_nodes(*old(self), *self),
                space == old(self).space(),
                self.space() == space,
                self.layers@.len() == old(self).layers@.len(),
                arith::is_measure(*score),
                arith::is_scaling(*selection.allowance),
                floor == selection.floor,
                level < self.layers@.len(),
                node < self.nodes(),
                capping ==> self.capacity(level as int) <= usize::MAX,
                forall|k: int| 0 <= k < neighbors@.len() ==> (#[trigger] neighbors@[k]) < self.nodes(),
                self.graph() == back_linked_all(
                    space,
                    *score,
                    *selection.allowance,
                    floor,
                    capping,
                    kept,
                    level,
                    neighbors@.take(i as int),
                    node,
                ),
            decreases neighbors@.len() - i,
        {
            let neighbor: usize = neighbors[i];
            assert(neighbors@.take(i + 1).drop_last() =~= neighbors@.take(i as int));
            assert(neighbors@.take(i + 1).last() == neighbor);
            self.link_back(score, level, neighbor, node);
            if capping && !self.deleted[neighbor] {
                self.cap_layer_neighbors(score, selection, level, neighbor);
            }
            i += 1;
        }
        assert(neighbors@.take(i as int) =~= neighbors@);
        if neighbors.len() > 0 {
            Some(neighbors[0])
        } else {
            None
        }
    }
}

} // verus!
