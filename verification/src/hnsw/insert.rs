//! How a point enters the graph.

use vstd::prelude::*;
use crate::arith;
use crate::hnsw::descend;
use crate::hnsw::graph;
use crate::hnsw::graph::{HNSWIndex, MAX_STORED_LEVEL, NODE_LIVE, NODE_RESERVED, NO_EP};
use crate::hnsw::link;
use crate::hnsw::search;
use crate::hnsw::select::Selection;
use crate::hnsw::space;
use crate::hnsw::space::{Links, Space};
use crate::hnsw::types::{DBError, NodeCandidate, PointId};
use crate::score;
use crate::score::Score;

verus! {

broadcast use vstd::std_specs::hash::group_hash_axioms;

/// The links with one more node: in the layers up to its level it is linked to
/// itself where `linked` is set; elsewhere it has no neighbours.
pub open spec fn grown(links: Links, node: usize, level: int, linked: bool) -> Links {
    Links {
        layers: Seq::new(
            links.layers.len(),
            |l: int|
                links.layers[l].push(
                    if linked && l <= level {
                        seq![node]
                    } else {
                        Seq::empty()
                    },
                ),
        ),
        dists: links.dists.push(Seq::empty()),
    }
}

/// Whether `after` is `before` with one more node.
pub open spec fn added(
    before: HNSWIndex,
    after: HNSWIndex,
    id: PointId,
    vector: Seq<Score>,
    level: int,
    state: u8,
    linked: bool,
) -> bool {
    &&& after == (HNSWIndex {
        layers: after.layers,
        vectors: after.vectors,
        levels: after.levels,
        deleted: after.deleted,
        edge_dists_l0: after.edge_dists_l0,
        node_state: after.node_state,
        ids: after.ids,
        alloc: after.alloc,
        ..before
    })
    &&& after.layers@.len() == before.layers@.len()
    &&& after.vectors.vectors() == before.vectors.vectors().push(vector)
    &&& after.levels@ == before.levels@.push(level as u8)
    &&& after.deleted@ == before.deleted@.push(false)
    &&& after.node_state@ == before.node_state@.push(state)
    &&& after.ids@ == before.ids@.push(id)
    &&& after.alloc.point_to_idx@ == before.alloc.point_to_idx@.insert(id, before.nodes() as usize)
    &&& after.graph() == grown(before.graph(), before.nodes() as usize, level, linked)
}

impl HNSWIndex {
    /// Adds an empty list for a new node to every layer.
    fn extend_layers_for_new_node(&mut self)
        ensures
            *final(self) == (HNSWIndex { layers: final(self).layers, ..*old(self) }),
            final(self).layers@.len() == old(self).layers@.len(),
            final(self).links() == Seq::new(
                old(self).links().len(),
                |l: int| old(self).links()[l].push(Seq::empty()),
            ),
            forall|l: int|
                0 <= l < final(self).layers@.len() ==> (#[trigger] final(self).layers@[l])@.len()
                    == old(self).layers@[l]@.len() + 1,
    {
        let ghost before = *self;
        let mut l: usize = 0;
        while l < self.layers.len()
            invariant
                l <= self.layers@.len(),
                self.layers@.len() == before.layers@.len(),
                *self == (HNSWIndex { layers: self.layers, ..before }),
                forall|k: int|
                    0 <= k < l ==> (#[trigger] self.layers@[k])@.len() == before.layers@[k]@.len() + 1 && self.links()[k]
                        == before.links()[k].push(Seq::empty()),
                forall|k: int| l <= k < self.layers@.len() ==> #[trigger] self.layers@[k] == before.layers@[k],
            decreases self.layers@.len() - l,
        {
            let ghost current = *self;
            self.layers[l].push(Vec::new());
            proof {
                assert(self.links()[l as int] =~= before.links()[l as int].push(Seq::empty()));
                assert forall|k: int| 0 <= k < l + 1 implies (#[trigger] self.layers@[k])@.len()
                    == before.layers@[k]@.len() + 1 && self.links()[k] == before.links()[k].push(Seq::empty()) by {
                    if k < l {
                        assert(self.layers@[k] == current.layers@[k]);
                        assert(self.links()[k] == current.links()[k]);
                    }
                }
            }
            l += 1;
        }
        assert(self.links() =~= Seq::new(before.links().len(), |l: int| before.links()[l].push(Seq::empty())));
    }

    /// Allocates a node for a point that has none yet; it is not published.
    pub fn alloc_node(&mut self, point_id: PointId, vector: &[Score], level: usize) -> (r: Option<usize>)
        requires
            old(self).wf(),
            level <= MAX_STORED_LEVEL,
            vector@.len() == old(self).dim,
            old(self).nodes() < NO_EP,
        ensures
            final(self).wf(),
            old(self).ids@.contains(point_id) ==> r is None && *final(self) == *old(self),
            !old(self).ids@.contains(point_id) ==> r == Some(old(self).nodes() as usize) && added(
                *old(self),
                *final(self),
                point_id,
                vector@,
                level as int,
                NODE_RESERVED,
                false,
            ),
    {
        if self.contains(&point_id) {
            return None;
        }
        let ghost before = *self;
        let idx: usize = self.alloc.node_count;
        self.vectors.push(vector);
        self.levels.push(level as u8);
        self.deleted.push(false);
        self.edge_dists_l0.push(Vec::new());
        self.node_state.push(NODE_RESERVED);
        self.ids.push(point_id);
        self.extend_layers_for_new_node();
        self.alloc.idx_to_point.push(point_id);
        self.alloc.point_to_idx.insert(point_id, idx);
        self.alloc.node_count = idx + 1;
        proof {
            assert(self.dists() =~= before.dists().push(Seq::empty()));
            assert(self.links() =~= grown(before.graph(), idx, level as int, false).layers);
            lemma_added(before, *self, point_id, vector@, level as int, NODE_RESERVED, false);
        }
        Some(idx)
    }
}

/// A node that is added to a graph in good order leaves it so.
proof fn lemma_added(
    before: HNSWIndex,
    after: HNSWIndex,
    id: PointId,
    vector: Seq<Score>,
    level: int,
    state: u8,
    linked: bool,
)
    requires
        before.wf(),
        before.nodes() < NO_EP,
        !before.ids@.contains(id),
        added(before, after, id, vector, level, state, linked),
        after.vectors.wf(),
        after.vectors.dimension() == before.dim,
        after.alloc.idx_to_point@ == after.ids@,
        after.alloc.node_count == after.ids@.len(),
        after.edge_dists_l0@.len() == before.edge_dists_l0@.len() + 1,
        forall|l: int|
            0 <= l < after.layers@.len() ==> (#[trigger] after.layers@[l])@.len() == before.layers@[l]@.len() + 1,
    ensures
        after.wf(),
{
    let n = before.nodes();
    graph::lemma_flag_count_push(before.deleted@, false);
    assert(after.alloc.wf()) by {
        let points = after.alloc.idx_to_point@;
        assert forall|i: int| 0 <= i < points.len() implies after.alloc.point_to_idx@.dom().contains(#[trigger] points[i])
            && after.alloc.point_to_idx@[points[i]] == i by {
            if i < n {
                assert(before.alloc.idx_to_point@[i] == points[i]);
                assert(before.ids@.contains(points[i]));
            }
        }
        assert forall|p: PointId| #[trigger] after.alloc.point_to_idx@.dom().contains(p) implies
            after.alloc.point_to_idx@[p] < points.len() && points[after.alloc.point_to_idx@[p] as int] == p by {
            if p != id {
                assert(before.alloc.point_to_idx@.dom().contains(p));
            }
        }
        assert forall|i: int, j: int| 0 <= i < points.len() && 0 <= j < points.len() && i != j implies points[i]
            != points[j] by {
            if i < n && j < n {
                assert(before.ids@[i] != before.ids@[j]);
            } else if i < n {
                assert(before.ids@.contains(points[i]));
            } else {
                assert(before.ids@.contains(points[j]));
            }
        }
    }
    assert forall|l: int| 0 <= l < after.layers@.len() implies (#[trigger] after.layers@[l])@.len() == after.nodes() by {
        assert(before.layers@[l]@.len() == n);
    }
    let links = after.links();
    assert forall|l: int, i: int, k: int|
        0 <= l < links.len() && 0 <= i < links[l].len() && 0 <= k < links[l][i].len() implies (#[trigger] links[l][i][k])
        < after.nodes() by {
        assert(links[l] == grown(before.graph(), n as usize, level, linked).layers[l]);
        assert(before.layers@[l]@.len() == n);
        if i < n {
            assert(links[l][i] == before.links()[l][i]);
            assert(before.links()[l][i][k] < n);
        }
    }
}

impl HNSWIndex {
    /// Publishes a node to searches.
    pub fn publish_live(&mut self, idx: usize)
        requires
            old(self).wf(),
            idx < old(self).nodes(),
        ensures
            final(self).wf(),
            *final(self) == (HNSWIndex { node_state: final(self).node_state, ..*old(self) }),
            final(self).node_state@ == old(self).node_state@.update(idx as int, NODE_LIVE),
    {
        self.node_state.set(idx, NODE_LIVE);
    }

    /// The node of a point, allocated where it had none, and published.
    pub fn register_node(&mut self, point_id: PointId, vector: &[Score], level: usize) -> (r: usize)
        requires
            old(self).wf(),
            level <= MAX_STORED_LEVEL,
            vector@.len() == old(self).dim,
            old(self).nodes() < NO_EP,
        ensures
            final(self).wf(),
            match old(self).node_of(point_id) {
                Some(idx) => r == idx && *final(self) == (HNSWIndex {
                    node_state: final(self).node_state,
                    ..*old(self)
                }) && final(self).node_state@ == old(self).node_state@.update(idx, NODE_LIVE),
                None => r == old(self).nodes() && added(
                    *old(self),
                    *final(self),
                    point_id,
                    vector@,
                    level as int,
                    NODE_LIVE,
                    false,
                ),
            },
    {
        let ghost before = *self;
        let known: bool = self.contains(&point_id);
        match self.alloc_node(point_id, vector, level) {
            Some(idx) => {
                self.publish_live(idx);
                assert(self.node_state@ =~= before.node_state@.push(NODE_LIVE));
                idx
            },
            None => match self.idx_of(point_id) {
                Some(idx) => {
                    self.publish_live(idx);
                    idx
                },
                None => {
                    assert(known);
                    0
                },
            },
        }
    }

    /// Adds a node for a point, published and linked to itself in the layers up to
    /// its level.
    pub(crate) fn enter_node(&mut self, point_id: PointId, vector: &[Score], level: usize) -> (r: usize)
        requires
            old(self).wf(),
            level <= old(self).max_level_cap,
            vector@.len() == old(self).dim,
            old(self).nodes() < NO_EP,
            !old(self).ids@.contains(point_id),
        ensures
            final(self).wf(),
            r == old(self).nodes(),
            added(*old(self), *final(self), point_id, vector@, level as int, NODE_LIVE, true),
    {
        let ghost before = *self;
        proof {
            if before.node_of(point_id) is Some {
                let i = before.alloc.point_to_idx@[point_id] as int;
                assert(before.ids@[i] == point_id);
            }
        }
        let idx: usize = self.register_node(point_id, vector, level);
        let ghost registered = *self;
        let mut l: usize = 0;
        while l <= level
            invariant
                l <= level + 1,
                level <= self.max_level_cap,
                self.wf(),
                space::same_nodes(registered, *self),
                idx < self.nodes(),
                registered.wf(),
                idx == before.nodes(),
                registered.nodes() == idx + 1,
                before.layers@.len() == registered.layers@.len(),
                registered.graph() == grown(before.graph(), idx, level as int, false),
                forall|k: int| 0 <= k < before.layers@.len() ==> (#[trigger] before.layers@[k])@.len() == idx,
                self.dists() == registered.dists(),
                forall|k: int|
                    0 <= k < self.layers@.len() ==> #[trigger] self.links()[k] == if k < l {
                        registered.links()[k].update(idx as int, seq![idx])
                    } else {
                        registered.links()[k]
                    },
            decreases level + 1 - l,
        {
            let ghost current = *self;
            let mut own: Vec<usize> = Vec::with_capacity(1);
            own.push(idx);
            assert(own@ =~= seq![idx]);
            self.set_list(l, idx, own);
            assert forall|k: int| 0 <= k < self.layers@.len() implies #[trigger] self.links()[k] == if k < l + 1 {
                registered.links()[k].update(idx as int, seq![idx])
            } else {
                registered.links()[k]
            } by {
                assert(self.graph().layers[k] == self.links()[k]);
                assert(current.graph().layers[k] == current.links()[k]);
                assert(before.layers@[k]@.len() == idx);
            }
            l += 1;
        }
        proof {
            let goal = grown(before.graph(), idx, level as int, true);
            assert forall|k: int| 0 <= k < self.links().len() implies #[trigger] self.links()[k] == goal.layers[k] by {
                assert(before.layers@[k]@.len() == idx);
                assert(registered.links()[k] == registered.graph().layers[k]);
                assert(self.links()[k] =~= goal.layers[k]);
            }
            assert(self.graph() =~= goal);
        }
        idx
    }
}

/// The last of the present nodes with the highest level.
pub open spec fn highest(levels: Seq<u8>, deleted: Seq<bool>) -> int {
    choose|at: int| graph::is_highest(levels, deleted, at)
}

/// There is one such node at most.
proof fn lemma_highest(levels: Seq<u8>, deleted: Seq<bool>, at: int)
    requires
        levels.len() == deleted.len(),
        graph::is_highest(levels, deleted, at),
    ensures
        highest(levels, deleted) == at,
{
    let other = highest(levels, deleted);
    assert(!deleted[at] && !deleted[other]);
    if other < at {
        assert(levels[at] < levels[other]);
    } else if at < other {
        assert(levels[other] < levels[at]);
    }
}

/// Where the search for a new node's neighbours starts: at the entry point, or at
/// the highest node where that is deleted.
pub open spec fn start_node(index: HNSWIndex, entry: int) -> int {
    if index.deleted@[entry] {
        highest(index.levels@, index.deleted@)
    } else {
        entry
    }
}

/// Whether a search from an entry node, with a candidate list of `ef`, may find these
/// candidates for the neighbours of a node in a graph with these links.
pub open spec fn finds<F: Fn(&[Score], &[Score]) -> Score>(
    space: Space,
    score: F,
    ef: usize,
    links: Links,
    node: usize,
    entry: int,
    level: int,
    found: Seq<NodeCandidate>,
) -> bool {
    exists|g: HNSWIndex|
        g.wf() && g.space() == space && g.graph() == links && #[trigger] search::are_results(
            g,
            score,
            space.vectors[node as int],
            seq![entry as usize],
            ef as int,
            level,
            found,
        )
}

/// How far the linking of a node has come: the links, and the node from which the
/// next layer is searched.
pub struct Progress {
    pub links: Links,
    pub entry: int,
}

/// A node linked into its layers, from the highest down, by what was found in
/// each.
pub open spec fn linked_down<F: Fn(&[Score], &[Score]) -> Score, S: Fn(Score, usize) -> Score>(
    space: Space,
    score: F,
    allowance: S,
    floor: int,
    capping_own: bool,
    capping: bool,
    start: Progress,
    node: usize,
    level: int,
    found: Seq<Seq<NodeCandidate>>,
) -> Progress
    decreases found.len(),
{
    if found.len() == 0 {
        start
    } else {
        let before = linked_down(
            space,
            score,
            allowance,
            floor,
            capping_own,
            capping,
            start,
            node,
            level,
            found.drop_last(),
        );
        let l = (level - (found.len() - 1)) as usize;
        let neighbors = link::layer_choice(
            space,
            score,
            allowance,
            floor,
            before.links,
            l,
            node,
            found.last(),
        );
        Progress {
            links: link::layer_linked(
                space,
                score,
                allowance,
                floor,
                capping_own,
                capping,
                before.links,
                l,
                node,
                neighbors,
            ),
            entry: if neighbors.len() > 0 {
                neighbors[0] as int
            } else {
                before.entry
            },
        }
    }
}

/// Whether each of the findings is one that the search may have made when the
/// layers above were linked.
pub open spec fn all_found<
    F: Fn(&[Score], &[Score]) -> Score,
    S: Fn(Score, usize) -> Score,
>(
    space: Space,
    score: F,
    allowance: S,
    floor: int,
    capping_own: bool,
    capping: bool,
    start: Progress,
    node: usize,
    level: int,
    ef: usize,
    found: Seq<Seq<NodeCandidate>>,
) -> bool
    decreases found.len(),
{
    if found.len() == 0 {
        true
    } else {
        let before = linked_down(
            space,
            score,
            allowance,
            floor,
            capping_own,
            capping,
            start,
            node,
            level,
            found.drop_last(),
        );
        &&& all_found(
            space,
            score,
            allowance,
            floor,
            capping_own,
            capping,
            start,
            node,
            level,
            ef,
            found.drop_last(),
        )
        &&& finds(space, score, ef, before.links, node, before.entry, level - (found.len() - 1), found.last())
    }
}

/// Whether a node may have been linked into its layers so, from an entry node, by
/// what the search found.
pub open spec fn may_link<
    F: Fn(&[Score], &[Score]) -> Score,
    S: Fn(Score, usize) -> Score,
>(
    space: Space,
    score: F,
    allowance: S,
    floor: int,
    capping_own: bool,
    capping: bool,
    start: Progress,
    node: usize,
    level: int,
    ef: usize,
    after: Links,
) -> bool {
    exists|found: Seq<Seq<NodeCandidate>>|
        found.len() == level + 1 && #[trigger] all_found(
            space,
            score,
            allowance,
            floor,
            capping_own,
            capping,
            start,
            node,
            level,
            ef,
            found,
        ) && after == linked_down(
            space,
            score,
            allowance,
            floor,
            capping_own,
            capping,
            start,
            node,
            level,
            found,
        ).links
}

impl HNSWIndex {
    /// Links a node into its layers, from the highest down, each by what the search
    /// finds there from the best neighbour of the layer above.
    pub(crate) fn link_down<
        F: Fn(&[Score], &[Score]) -> Score,
        S: Fn(Score, usize) -> Score,
        >(
        &mut self,
        score: &F,
        selection: &Selection<'_, S>,
        capping_own: bool,
        capping: bool,
        node: usize,
        level: usize,
        entry: usize,
    )
        requires
            old(self).wf(),
            arith::is_measure(*score),
            arith::is_scaling(*selection.allowance),
            level < old(self).layers@.len(),
            level <= MAX_STORED_LEVEL,
            node < old(self).nodes(),
            entry < old(self).nodes(),
            capping_own || capping ==> old(self).stored_cap_l0 < usize::MAX && old(self).m < usize::MAX,
        ensures
            final(self).wf(),
            space::same_nodes(*old(self), *final(self)),
            may_link(
                old(self).space(),
                *score,
                *selection.allowance,
                selection.floor as int,
                capping_own,
                capping,
                (Progress { links: old(self).graph(), entry: entry as int }),
                node,
                level as int,
                old(self).ef_construct,
                final(self).graph(),
            ),
    {
        let ghost space = self.space();
        let ghost floor = selection.floor as int;
        let ef: usize = self.ef_construct;
        let ghost start = Progress { links: self.graph(), entry: entry as int };
        let ghost mut found: Seq<Seq<NodeCandidate>> = Seq::empty();
        let mut current: usize = entry;
        let mut left: usize = level + 1;
        while left > 0
            invariant
                left <= level + 1,
                found.len() == level + 1 - left,
                self.wf(),
                space::same_nodes(*old(self), *self),
                space == self.space(),
                arith::is_measure(*score),
                arith::is_scaling(*selection.allowance),
                    floor == selection.floor,
                ef == self.ef_construct,
                level < self.layers@.len(),
                node < self.nodes(),
                current < self.nodes(),
                capping_own || capping ==> self.stored_cap_l0 < usize::MAX && self.m < usize::MAX,
                linked_down(
                    space,
                    *score,
                    *selection.allowance,
                    floor,
                    capping_own,
                    capping,
                    start,
                    node,
                    level as int,
                    found,
                ) == (Progress { links: self.graph(), entry: current as int }),
                all_found(
                    space,
                    *score,
                    *selection.allowance,
                    floor,
                    capping_own,
                    capping,
                    start,
                    node,
                    level as int,
                    ef,
                    found,
                ),
            decreases left,
        {
            let l: usize = left - 1;
            let mut entries: Vec<usize> = Vec::with_capacity(1);
            entries.push(current);
            let candidates: Vec<NodeCandidate> = self.search_layer_unfiltered(
                score,
                self.vector_slice(node),
                entries.as_slice(),
                ef,
                l,
            );
            let ghost before = *self;
            let best: Option<usize> = self.link_layer(
                score,
                selection,
                capping_own,
                capping,
                l,
                node,
                candidates.as_slice(),
            );
            proof {
                let next = found.push(candidates@);
                assert(next.drop_last() =~= found);
                assert(entries@ =~= seq![current as int as usize]);
                assert(finds(space, *score, ef, before.graph(), node, current as int, l as int, candidates@)) by {
                    assert(search::are_results(
                        before,
                        *score,
                        space.vectors[node as int],
                        seq![current as int as usize],
                        ef as int,
                        l as int,
                        candidates@,
                    ));
                }
                found = next;
            }
            if let Some(neighbor) = best {
                current = neighbor;
            }
            left = l;
        }
    }

    /// Inserts a point.
    ///
    /// A point that is there already is left as it is. `vector` is the point's
    /// vector as the graph stores it, `level` the level drawn for it. Lists are cut to
    /// their capacity where `capping` is set.
    pub fn insert<
        F: Fn(&[Score], &[Score]) -> Score,
        S: Fn(Score, usize) -> Score,
        >(
        &mut self,
        score: &F,
        selection: &Selection<'_, S>,
        capping: bool,
        point_id: PointId,
        vector: &[Score],
        level: usize,
    ) -> (r: Result<(), DBError>)
        requires
            old(self).wf(),
            arith::is_measure(*score),
            arith::is_scaling(*selection.allowance),
            !old(self).ids@.contains(point_id) ==> level <= old(self).max_level_cap,
            !old(self).ids@.contains(point_id) ==> old(self).nodes() < NO_EP,
            !old(self).ids@.contains(point_id) && capping ==> old(self).stored_cap_l0 < usize::MAX && old(self).m
                < usize::MAX,
        ensures
            final(self).wf(),
            old(self).ids@.contains(point_id) ==> r is Ok && *final(self) == *old(self),
            !old(self).ids@.contains(point_id) && vector@.len() != old(self).dim ==> r == Err::<(), DBError>(
                DBError::VectorLengthMismatch { expected: old(self).dim, actual: vector@.len() as usize },
            ) && *final(self) == *old(self),
            !old(self).ids@.contains(point_id) && vector@.len() == old(self).dim ==> r is Ok && inserted(
                *old(self),
                *final(self),
                *score,
                *selection.allowance,
                selection.floor as int,
                capping,
                point_id,
                vector@,
                level,
            ),
    {
        if self.contains(&point_id) {
            return Ok(());
        }
        match self.validate_dim(vector) {
            Ok(_) => {},
            Err(e) => {
                return Err(e);
            },
        }
        let ghost before = *self;
        let idx: usize = self.enter_node(point_id, vector, level);
        let ghost entered = *self;
        let (entry, top): (Option<usize>, usize) = self.entry_level();
        let ep: usize = match entry {
            None => {
                self.store_entry_level(idx, level);
                assert(inserted(
                    before,
                    *self,
                    *score,
                    *selection.allowance,
                    selection.floor as int,
                    capping,
                    point_id,
                    vector@,
                    level,
                ));
                return Ok(());
            },
            Some(ep) => ep,
        };
        let start: usize = if self.deleted[ep] {
            match self.find_highest_level_entry_point() {
                Some(at) => {
                    proof {
                        lemma_highest(self.levels@, self.deleted@, at as int);
                    }
                    at
                },
                None => {
                    assert(!self.deleted@[idx as int]);
                    idx
                },
            }
        } else {
            ep
        };
        let current: usize = self.descend(score, self.vector_slice(idx), start, top, level);
        self.link_down(score, selection, capping, capping, idx, level, current);
        let ghost linked = *self;
        self.promote_entry_if_higher(idx, level);
        proof {
            assert(linked.top_level() == before.top_level());
            assert(inserted(
                before,
                *self,
                *score,
                *selection.allowance,
                selection.floor as int,
                capping,
                point_id,
                vector@,
                level,
            ));
        }
        Ok(())
    }
}

/// Whether `after` may be the graph `before` with a new point inserted.
///
/// The point has a node of its own, published. In a graph without an entry point
/// it becomes the entry point. Elsewhere it is linked into its layers, from where
/// greedy walks through the layers above end, and becomes the entry point if its
/// level is above the highest.
pub open spec fn inserted<
    F: Fn(&[Score], &[Score]) -> Score,
    S: Fn(Score, usize) -> Score,
>(
    before: HNSWIndex,
    after: HNSWIndex,
    score: F,
    allowance: S,
    floor: int,
    capping: bool,
    point_id: PointId,
    vector: Seq<Score>,
    level: usize,
) -> bool {
    let node = before.nodes() as usize;
    exists|entered: HNSWIndex|
        #![trigger added(before, entered, point_id, vector, level as int, NODE_LIVE, true)]
        {
            &&& added(before, entered, point_id, vector, level as int, NODE_LIVE, true)
            &&& match before.entry() {
                None => after == (HNSWIndex {
                    entry_level_ep: graph::packed_ep(node as int, level as int) as u64,
                    ..entered
                }),
                Some(entry) => {
                    &&& space::same_nodes(
                        entered,
                        HNSWIndex { entry_level_ep: entered.entry_level_ep, ..after },
                    )
                    &&& after.entry_level_ep == if level > before.top_level() {
                        graph::packed_ep(node as int, level as int) as u64
                    } else {
                        before.entry_level_ep
                    }
                    &&& may_link(
                        entered.space(),
                        score,
                        allowance,
                        floor,
                        capping,
                        capping,
                        (Progress {
                            links: entered.graph(),
                            entry: descend::descended(
                                entered.space(),
                                score,
                                entered.links(),
                                vector,
                                start_node(entered, entry),
                                before.top_level(),
                                level as int,
                            ),
                        }),
                        node,
                        level as int,
                        entered.ef_construct,
                        after.graph(),
                    )
                },
            }
        }
}

/// An inserted point is found at its own node, not deleted, with its vector and
/// its level, and every other point keeps its node, its vector, its level and
/// whether it is deleted.
pub proof fn law_insertion_adds_one_point<
    F: Fn(&[Score], &[Score]) -> Score,
    S: Fn(Score, usize) -> Score,
>(
    before: HNSWIndex,
    after: HNSWIndex,
    score: F,
    allowance: S,
    floor: int,
    capping: bool,
    point_id: PointId,
    vector: Seq<Score>,
    level: usize,
    other: PointId,
)
    requires
        before.wf(),
        before.nodes() < NO_EP,
        level <= before.max_level_cap,
        !before.ids@.contains(point_id),
        inserted(before, after, score, allowance, floor, capping, point_id, vector, level),
        other != point_id,
    ensures
        after.nodes() == before.nodes() + 1,
        after.node_of(point_id) == Some(before.nodes() as int),
        after.present(before.nodes() as int),
        after.vectors.vectors()[before.nodes() as int] == vector,
        after.levels@[before.nodes() as int] == level,
        after.node_of(other) == before.node_of(other),
        before.node_of(other) matches Some(node) ==> after.vectors.vectors()[node] == before.vectors.vectors()[node]
            && after.levels@[node] == before.levels@[node] && after.deleted@[node] == before.deleted@[node],
        after.deleted_count == before.deleted_count,
{
    let entered = choose|entered: HNSWIndex|
        #![trigger added(before, entered, point_id, vector, level as int, NODE_LIVE, true)]
        {
            &&& added(before, entered, point_id, vector, level as int, NODE_LIVE, true)
            &&& match before.entry() {
                None => after == (HNSWIndex {
                    entry_level_ep: graph::packed_ep(before.nodes() as usize as int, level as int) as u64,
                    ..entered
                }),
                Some(entry) => space::same_nodes(
                    entered,
                    HNSWIndex { entry_level_ep: entered.entry_level_ep, ..after },
                ),
            }
        };
    assert(entered.nodes() == after.nodes());
}

} // verus!
