//! A graph by the ids of its points, as it is stored.

use vstd::prelude::*;
use std::collections::HashMap;
use crate::hnsw::arena::VectorArena;
use crate::hnsw::graph;
use crate::hnsw::graph::{AllocState, HNSWIndex, CHUNK_CAP, MAX_STORED_LEVEL, NODE_DELETED, NODE_LIVE, NO_EP};
use crate::hnsw::reorder;
use crate::hnsw::types::{DistanceMetric, PointId};
use crate::order;
use crate::score::Score;

verus! {

broadcast use vstd::std_specs::hash::group_hash_axioms;

/// What is stored of a graph.
pub struct HnswSnapshot {
    /// For each layer, the neighbours of each point that has any.
    pub layers: Vec<(usize, Vec<(PointId, Vec<PointId>)>)>,
    pub vectors: Vec<(PointId, Vec<Score>)>,
    pub levels: Vec<(PointId, usize)>,
    pub entry_point: Option<PointId>,
    pub metric: DistanceMetric,
    pub m: usize,
    /// Twice `m` where it is zero.
    pub m0: usize,
    /// `m0` where it is zero.
    pub stored_cap_l0: usize,
    pub ef: usize,
    pub ef_construct: usize,
    pub max_level_cap: usize,
    pub level_scale: u64,
    pub current_max_level: usize,
    pub dim: usize,
    pub deleted: Vec<PointId>,
    pub exact_fallback_enabled: bool,
    pub exact_fallback_threshold: usize,
}

/// What was stored of a graph before the lowest layer had settings of its own.
pub struct HnswSnapshotV1 {
    pub layers: Vec<(usize, Vec<(PointId, Vec<PointId>)>)>,
    pub vectors: Vec<(PointId, Vec<Score>)>,
    pub levels: Vec<(PointId, usize)>,
    pub entry_point: Option<PointId>,
    pub metric: DistanceMetric,
    pub m: usize,
    pub ef: usize,
    pub ef_construct: usize,
    pub max_level_cap: usize,
    pub level_scale: u64,
    pub current_max_level: usize,
    pub dim: usize,
    pub deleted: Vec<PointId>,
    pub exact_fallback_enabled: bool,
    pub exact_fallback_threshold: usize,
}

/// A snapshot with the settings of the lowest layer that graphs had then.
pub fn upgrade(snapshot: HnswSnapshotV1) -> (r: HnswSnapshot)
    requires
        snapshot.m * 2 <= usize::MAX,
    ensures
        r == (HnswSnapshot {
            layers: snapshot.layers,
            vectors: snapshot.vectors,
            levels: snapshot.levels,
            entry_point: snapshot.entry_point,
            metric: snapshot.metric,
            m: snapshot.m,
            m0: (snapshot.m * 2) as usize,
            stored_cap_l0: (snapshot.m * 2) as usize,
            ef: snapshot.ef,
            ef_construct: snapshot.ef_construct,
            max_level_cap: snapshot.max_level_cap,
            level_scale: snapshot.level_scale,
            current_max_level: snapshot.current_max_level,
            dim: snapshot.dim,
            deleted: snapshot.deleted,
            exact_fallback_enabled: snapshot.exact_fallback_enabled,
            exact_fallback_threshold: snapshot.exact_fallback_threshold,
        }),
{
    let m0: usize = snapshot.m * 2;
    HnswSnapshot {
        layers: snapshot.layers,
        vectors: snapshot.vectors,
        levels: snapshot.levels,
        entry_point: snapshot.entry_point,
        metric: snapshot.metric,
        m: snapshot.m,
        m0,
        stored_cap_l0: m0,
        ef: snapshot.ef,
        ef_construct: snapshot.ef_construct,
        max_level_cap: snapshot.max_level_cap,
        level_scale: snapshot.level_scale,
        current_max_level: snapshot.current_max_level,
        dim: snapshot.dim,
        deleted: snapshot.deleted,
        exact_fallback_enabled: snapshot.exact_fallback_enabled,
        exact_fallback_threshold: snapshot.exact_fallback_threshold,
    }
}

/// The neighbours of points.
pub open spec fn lists_view(entries: Seq<(PointId, Vec<PointId>)>) -> Seq<(PointId, Seq<PointId>)> {
    entries.map_values(|entry: (PointId, Vec<PointId>)| (entry.0, entry.1@))
}

/// The layers of a snapshot.
pub open spec fn layers_view(layers: Seq<(usize, Vec<(PointId, Vec<PointId>)>)>) -> Seq<
    (usize, Seq<(PointId, Seq<PointId>)>),
> {
    layers.map_values(|layer: (usize, Vec<(PointId, Vec<PointId>)>)| (layer.0, lists_view(layer.1@)))
}

/// The vectors of points.
pub open spec fn vectors_view(entries: Seq<(PointId, Vec<Score>)>) -> Seq<(PointId, Seq<Score>)> {
    entries.map_values(|entry: (PointId, Vec<Score>)| (entry.0, entry.1@))
}

/// The neighbours of the first `upto` nodes of a layer, of those that have any.
pub open spec fn stored_layer(ids: Seq<PointId>, layer: Seq<Seq<usize>>, upto: nat) -> Seq<(PointId, Seq<PointId>)>
    decreases upto,
{
    if upto == 0 {
        Seq::empty()
    } else {
        let before = stored_layer(ids, layer, (upto - 1) as nat);
        if layer[upto - 1].len() == 0 {
            before
        } else {
            before.push((ids[upto - 1], reorder::points_of(ids, layer[upto - 1])))
        }
    }
}

/// The first `upto` layers, of those in which any node has a neighbour.
pub open spec fn stored_layers(ids: Seq<PointId>, links: Seq<Seq<Seq<usize>>>, upto: nat) -> Seq<
    (usize, Seq<(PointId, Seq<PointId>)>),
>
    decreases upto,
{
    if upto == 0 {
        Seq::empty()
    } else {
        let before = stored_layers(ids, links, (upto - 1) as nat);
        let layer = stored_layer(ids, links[upto - 1], ids.len());
        if layer.len() == 0 {
            before
        } else {
            before.push(((upto - 1) as usize, layer))
        }
    }
}

/// The deleted ones of the first `upto` points.
pub open spec fn stored_deleted(ids: Seq<PointId>, deleted: Seq<bool>, upto: nat) -> Seq<PointId>
    decreases upto,
{
    if upto == 0 {
        Seq::empty()
    } else if deleted[upto - 1] {
        stored_deleted(ids, deleted, (upto - 1) as nat).push(ids[upto - 1])
    } else {
        stored_deleted(ids, deleted, (upto - 1) as nat)
    }
}

/// Whether a snapshot is what is stored of a graph.
pub open spec fn is_snapshot(index: HNSWIndex, snapshot: HnswSnapshot) -> bool {
    &&& layers_view(snapshot.layers@) == stored_layers(index.ids@, index.links(), index.layers@.len())
    &&& vectors_view(snapshot.vectors@) == Seq::new(
        index.nodes(),
        |i: int| (index.ids@[i], index.vectors.vectors()[i]),
    )
    &&& snapshot.levels@ == Seq::new(index.nodes(), |i: int| (index.ids@[i], index.levels@[i] as usize))
    &&& snapshot.deleted@ == stored_deleted(index.ids@, index.deleted@, index.nodes())
    &&& snapshot.entry_point == match index.entry() {
        Some(e) => Some(index.ids@[e]),
        None => None,
    }
    &&& snapshot.metric == index.metric
    &&& snapshot.m == index.m
    &&& snapshot.m0 == index.m0
    &&& snapshot.stored_cap_l0 == index.stored_cap_l0
    &&& snapshot.ef == index.ef
    &&& snapshot.ef_construct == index.ef_construct
    &&& snapshot.max_level_cap == index.max_level_cap
    &&& snapshot.level_scale == index.level_scale
    &&& snapshot.current_max_level == index.top_level()
    &&& snapshot.dim == index.dim
    &&& snapshot.exact_fallback_enabled == index.exact_fallback_enabled
    &&& snapshot.exact_fallback_threshold == index.exact_fallback_threshold
}

impl HNSWIndex {
    /// The points of the nodes of a list.
    fn points(&self, list: &[usize]) -> (r: Vec<PointId>)
        requires
            self.wf(),
            forall|k: int| 0 <= k < list@.len() ==> (#[trigger] list@[k]) < self.nodes(),
        ensures
            r@ == reorder::points_of(self.ids@, list@),
    {
        let mut out: Vec<PointId> = Vec::with_capacity(list.len());
        let mut k: usize = 0;
        while k < list.len()
            invariant
                k <= list@.len(),
                self.wf(),
                forall|k: int| 0 <= k < list@.len() ==> (#[trigger] list@[k]) < self.nodes(),
                out@ == reorder::points_of(self.ids@, list@).take(k as int),
            decreases list@.len() - k,
        {
            out.push(self.ids[list[k]]);
            k += 1;
        }
        assert(out@ =~= reorder::points_of(self.ids@, list@));
        out
    }

    /// The neighbours in a layer of the points that have any.
    fn snapshot_layer(&self, level: usize) -> (r: Vec<(PointId, Vec<PointId>)>)
        requires
            self.wf(),
            level < self.layers@.len(),
        ensures
            lists_view(r@) == stored_layer(self.ids@, self.links()[level as int], self.nodes()),
    {
        let n: usize = self.len();
        let ghost layer = self.links()[level as int];
        let mut out: Vec<(PointId, Vec<PointId>)> = Vec::new();
        assert(lists_view(out@) =~= Seq::empty());
        let mut i: usize = 0;
        while i < n
            invariant
                i <= n,
                n == self.nodes(),
                self.wf(),
                level < self.layers@.len(),
                layer == self.links()[level as int],
                lists_view(out@) == stored_layer(self.ids@, layer, i as nat),
            decreases n - i,
        {
            assert(self.layers@[level as int]@.len() == n);
            let list: &[usize] = self.layers[level][i].as_slice();
            assert(list@ == layer[i as int]);
            if list.len() > 0 {
                assert forall|k: int| 0 <= k < list@.len() implies (#[trigger] list@[k]) < self.nodes() by {
                    assert(self.links()[level as int][i as int][k] < n);
                }
                let points: Vec<PointId> = self.points(list);
                let ghost before = out@;
                let ghost added = (self.ids@[i as int], points@);
                out.push((self.ids[i], points));
                assert(lists_view(out@) =~= lists_view(before).push(added));
            }
            i += 1;
        }
        out
    }

    /// What is stored of the graph.
    pub fn to_snapshot(&self) -> (r: HnswSnapshot)
        requires
            self.wf(),
        ensures
            is_snapshot(*self, r),
    {
        let n: usize = self.len();
        let mut vectors: Vec<(PointId, Vec<Score>)> = Vec::with_capacity(n);
        let mut levels: Vec<(PointId, usize)> = Vec::with_capacity(n);
        let mut deleted: Vec<PointId> = Vec::new();
        let ghost all_vectors = Seq::new(n as nat, |i: int| (self.ids@[i], self.vectors.vectors()[i]));
        let ghost all_levels = Seq::new(n as nat, |i: int| (self.ids@[i], self.levels@[i] as usize));
        let mut i: usize = 0;
        while i < n
            invariant
                i <= n,
                n == self.nodes(),
                self.wf(),
                all_vectors == Seq::new(n as nat, |i: int| (self.ids@[i], self.vectors.vectors()[i])),
                all_levels == Seq::new(n as nat, |i: int| (self.ids@[i], self.levels@[i] as usize)),
                vectors_view(vectors@) == all_vectors.take(i as int),
                levels@ == all_levels.take(i as int),
                deleted@ == stored_deleted(self.ids@, self.deleted@, i as nat),
            decreases n - i,
        {
            let mut vector: Vec<Score> = Vec::with_capacity(self.dim);
            vector.extend_from_slice(self.vector_slice(i));
            assert(vector@ =~= self.vectors.vectors()[i as int]);
            let ghost before = vectors@;
            let ghost added = (self.ids@[i as int], vector@);
            vectors.push((self.ids[i], vector));
            assert(vectors_view(vectors@) =~= vectors_view(before).push(added));
            assert(all_vectors.take(i + 1) =~= all_vectors.take(i as int).push(added));
            levels.push((self.ids[i], self.levels[i] as usize));
            if self.deleted[i] {
                deleted.push(self.ids[i]);
            }
            i += 1;
        }
        assert(all_vectors.take(i as int) =~= all_vectors);
        assert(all_levels.take(i as int) =~= all_levels);
        let mut layers: Vec<(usize, Vec<(PointId, Vec<PointId>)>)> = Vec::new();
        assert(layers_view(layers@) =~= Seq::empty());
        let mut l: usize = 0;
        while l < self.layers.len()
            invariant
                l <= self.layers@.len(),
                self.wf(),
                layers_view(layers@) == stored_layers(self.ids@, self.links(), l as nat),
            decreases self.layers@.len() - l,
        {
            let layer: Vec<(PointId, Vec<PointId>)> = self.snapshot_layer(l);
            assert(lists_view(layer@).len() == layer@.len());
            if layer.len() > 0 {
                let ghost before = layers@;
                let ghost added = (l, lists_view(layer@));
                layers.push((l, layer));
                assert(layers_view(layers@) =~= layers_view(before).push(added));
            }
            l += 1;
        }
        let (entry, current_max_level): (Option<usize>, usize) = self.entry_level();
        let entry_point: Option<PointId> = match entry {
            Some(e) => Some(self.ids[e]),
            None => None,
        };
        assert(vectors_view(vectors@) =~= Seq::new(
            self.nodes(),
            |i: int| (self.ids@[i], self.vectors.vectors()[i]),
        ));
        assert(levels@ =~= Seq::new(self.nodes(), |i: int| (self.ids@[i], self.levels@[i] as usize)));
        HnswSnapshot {
            layers,
            vectors,
            levels,
            entry_point,
            metric: self.metric,
            m: self.m,
            m0: self.m0,
            stored_cap_l0: self.stored_cap_l0,
            ef: self.ef,
            ef_construct: self.ef_construct,
            max_level_cap: self.max_level_cap,
            level_scale: self.level_scale,
            current_max_level,
            dim: self.dim,
            deleted,
            exact_fallback_enabled: self.exact_fallback_enabled,
            exact_fallback_threshold: self.exact_fallback_threshold,
        }
    }
}

/// The level of a point: that of its last entry, or zero.
pub open spec fn level_of(levels: Seq<(PointId, usize)>, id: PointId) -> usize
    decreases levels.len(),
{
    if levels.len() == 0 {
        0
    } else if levels.last().0 == id {
        levels.last().1
    } else {
        level_of(levels.drop_last(), id)
    }
}

/// The neighbours of a point in a stored layer: those of its last entry, or none.
pub open spec fn list_in(entries: Seq<(PointId, Seq<PointId>)>, id: PointId) -> Option<Seq<PointId>>
    decreases entries.len(),
{
    if entries.len() == 0 {
        None
    } else if entries.last().0 == id {
        Some(entries.last().1)
    } else {
        list_in(entries.drop_last(), id)
    }
}

/// The neighbours of a point in a layer, by the stored layers.
pub open spec fn list_at(layers: Seq<(usize, Seq<(PointId, Seq<PointId>)>)>, level: int, id: PointId) -> Seq<PointId>
    decreases layers.len(),
{
    if layers.len() == 0 {
        Seq::empty()
    } else if layers.last().0 == level && list_in(layers.last().1, id) is Some {
        list_in(layers.last().1, id)->0
    } else {
        list_at(layers.drop_last(), level, id)
    }
}

/// The nodes of those points of a list that have one.
pub open spec fn known(nodes: Map<PointId, usize>, list: Seq<PointId>) -> Seq<usize>
    decreases list.len(),
{
    if list.len() == 0 {
        Seq::empty()
    } else if nodes.dom().contains(list.last()) {
        known(nodes, list.drop_last()).push(nodes[list.last()])
    } else {
        known(nodes, list.drop_last())
    }
}

/// The highest layer that is stored, or zero.
pub open spec fn top_layer(layers: Seq<(usize, Seq<(PointId, Seq<PointId>)>)>) -> int
    decreases layers.len(),
{
    if layers.len() == 0 {
        0
    } else {
        let before = top_layer(layers.drop_last());
        if layers.last().0 > before {
            layers.last().0 as int
        } else {
            before
        }
    }
}

/// The larger of two numbers.
pub open spec fn larger(a: int, b: int) -> int {
    if a < b {
        b
    } else {
        a
    }
}

/// The smaller of two numbers.
pub open spec fn smaller(a: int, b: int) -> int {
    if a < b {
        a
    } else {
        b
    }
}

/// How many layers a restored graph has.
pub open spec fn layer_count(snapshot: HnswSnapshot) -> int {
    larger(
        smaller(snapshot.max_level_cap as int, MAX_STORED_LEVEL as int),
        larger(top_layer(layers_view(snapshot.layers@)), snapshot.current_max_level as int),
    ) + 1
}

/// Whether the snapshot has a vector of a point at a position.
pub open spec fn vector_at(snapshot: HnswSnapshot, k: int, id: PointId) -> bool {
    0 <= k < snapshot.vectors@.len() && snapshot.vectors@[k].0 == id
}

/// Whether a vector is the stored one of a point.
pub open spec fn restored_vector(snapshot: HnswSnapshot, id: PointId, vector: Seq<Score>) -> bool {
    exists|k: int| #[trigger] vector_at(snapshot, k, id) && vector == snapshot.vectors@[k].1@
}

/// Whether a graph can be restored from a snapshot: every vector has the stored
/// dimension, no point has two, and the numbers of nodes and layers can be held.
pub open spec fn restorable(snapshot: HnswSnapshot) -> bool {
    &&& snapshot.dim > 0
    &&& CHUNK_CAP * snapshot.dim <= usize::MAX
    &&& snapshot.m0 == 0 ==> snapshot.m * 2 <= usize::MAX
    &&& snapshot.vectors@.len() <= NO_EP
    &&& forall|k: int|
        0 <= k < snapshot.vectors@.len() ==> (#[trigger] snapshot.vectors@[k]).1@.len() == snapshot.dim
    &&& forall|j: int, k: int|
        0 <= j < k < snapshot.vectors@.len() ==> (#[trigger] snapshot.vectors@[j]).0 != (
        #[trigger] snapshot.vectors@[k]).0
    &&& layer_count(snapshot) <= usize::MAX
}

/// Whether a graph is what a snapshot restores: its nodes stand in ascending order
/// of their points' ids.
pub open spec fn is_restored(
    snapshot: HnswSnapshot,
    index: HNSWIndex,
    enabled: Option<bool>,
    threshold: Option<usize>,
) -> bool {
    let n = snapshot.vectors@.len();
    &&& index.nodes() == n
    &&& forall|i: int, j: int| 0 <= i < j < n ==> (#[trigger] index.ids@[i]) < (#[trigger] index.ids@[j])
    &&& forall|i: int|
        0 <= i < n ==> restored_vector(snapshot, #[trigger] index.ids@[i], index.vectors.vectors()[i])
    &&& forall|k: int| 0 <= k < n ==> index.ids@.contains((#[trigger] snapshot.vectors@[k]).0)
    &&& forall|i: int|
        0 <= i < n ==> #[trigger] index.levels@[i] == smaller(
            level_of(snapshot.levels@, index.ids@[i]) as int,
            MAX_STORED_LEVEL as int,
        )
    &&& forall|i: int| 0 <= i < n ==> #[trigger] index.deleted@[i] == snapshot.deleted@.contains(index.ids@[i])
    &&& forall|i: int|
        0 <= i < n ==> #[trigger] index.node_state@[i] == if index.deleted@[i] {
            NODE_DELETED
        } else {
            NODE_LIVE
        }
    &&& index.layers@.len() == layer_count(snapshot)
    &&& forall|l: int, i: int|
        0 <= l < index.layers@.len() && 0 <= i < n ==> #[trigger] index.links()[l][i] == known(
            index.alloc.point_to_idx@,
            list_at(layers_view(snapshot.layers@), l, index.ids@[i]),
        )
    &&& forall|i: int| 0 <= i < n ==> (#[trigger] index.dists()[i]).len() == 0
    &&& index.entry() == match snapshot.entry_point {
        Some(id) => index.node_of(id),
        None => None,
    }
    &&& index.top_level() == smaller(snapshot.current_max_level as int, MAX_STORED_LEVEL as int)
    &&& index.metric == snapshot.metric
    &&& index.m == snapshot.m
    &&& index.m0 == if snapshot.m0 == 0 {
        snapshot.m * 2
    } else {
        snapshot.m0 as int
    }
    &&& index.stored_cap_l0 == if snapshot.stored_cap_l0 == 0 {
        index.m0
    } else {
        snapshot.stored_cap_l0
    }
    &&& index.ef == snapshot.ef
    &&& index.ef_construct == snapshot.ef_construct
    &&& index.max_level_cap == smaller(snapshot.max_level_cap as int, MAX_STORED_LEVEL as int)
    &&& index.level_scale == snapshot.level_scale
    &&& index.dim == snapshot.dim
    &&& index.quantized@.len() == 0
    &&& index.quant_min@.len() == 0
    &&& index.quant_scale@.len() == 0
    &&& index.exact_fallback_enabled == match enabled {
        Some(enabled) => enabled,
        None => false,
    }
    &&& index.exact_fallback_threshold == match threshold {
        Some(threshold) => threshold,
        None => snapshot.exact_fallback_threshold,
    }
}

/// Whether there is a vector of a point.
spec fn has_vector(vectors: Seq<(PointId, Vec<Score>)>, id: PointId) -> bool {
    exists|k: int| 0 <= k < vectors.len() && (#[trigger] vectors[k]).0 == id
}

/// The ids of the points of a snapshot, in ascending order.
fn sorted_ids(vectors: &Vec<(PointId, Vec<Score>)>) -> (r: Vec<PointId>)
    requires
        forall|j: int, k: int|
            0 <= j < k < vectors@.len() ==> (#[trigger] vectors@[j]).0 != (#[trigger] vectors@[k]).0,
    ensures
        r@.len() == vectors@.len(),
        forall|i: int, j: int| 0 <= i < j < r@.len() ==> (#[trigger] r@[i]) < (#[trigger] r@[j]),
        forall|k: int| 0 <= k < vectors@.len() ==> r@.contains((#[trigger] vectors@[k]).0),
        forall|i: int| 0 <= i < r@.len() ==> has_vector(vectors@, #[trigger] r@[i]),
{
    let mut pairs: Vec<(i64, u64)> = Vec::with_capacity(vectors.len());
    let mut k: usize = 0;
    while k < vectors.len()
        invariant
            k <= vectors@.len(),
            pairs@.len() == k,
            forall|j: int| 0 <= j < k ==> #[trigger] pairs@[j] == (0i64, vectors@[j].0),
        decreases vectors@.len() - k,
    {
        pairs.push((0, vectors[k].0));
        k += 1;
    }
    let ghost given = pairs@;
    order::sort_pairs(&mut pairs);
    proof {
        order::law_sorted_pairs(given);
        assert(given.no_duplicates()) by {
            assert forall|i: int, j: int| 0 <= i < given.len() && 0 <= j < given.len() && i != j implies given[i]
                != given[j] by {
                if i < j {
                    assert(vectors@[i].0 != vectors@[j].0);
                } else {
                    assert(vectors@[j].0 != vectors@[i].0);
                }
            }
        }
        given.lemma_multiset_has_no_duplicates();
        pairs@.lemma_multiset_has_no_duplicates_conv();
        assert forall|i: int| 0 <= i < pairs@.len() implies (#[trigger] pairs@[i]).0 == 0 && has_vector(
            vectors@,
            pairs@[i].1,
        ) by {
            assert(pairs@.contains(pairs@[i]));
            assert(given.contains(pairs@[i]));
            let k = choose|k: int| 0 <= k < given.len() && given[k] == pairs@[i];
            assert(vectors@[k].0 == pairs@[i].1);
        }
    }
    let mut out: Vec<PointId> = Vec::with_capacity(pairs.len());
    let mut i: usize = 0;
    while i < pairs.len()
        invariant
            i <= pairs@.len(),
            out@.len() == i,
            forall|j: int| 0 <= j < i ==> #[trigger] out@[j] == pairs@[j].1,
        decreases pairs@.len() - i,
    {
        out.push(pairs[i].1);
        i += 1;
    }
    proof {
        assert forall|i: int, j: int| 0 <= i < j < out@.len() implies (#[trigger] out@[i]) < (#[trigger] out@[j]) by {
            assert(order::pair_leq(pairs@[i], pairs@[j]));
            assert(pairs@[i] != pairs@[j]);
        }
        assert forall|k: int| 0 <= k < vectors@.len() implies out@.contains((#[trigger] vectors@[k]).0) by {
            assert(given.contains(given[k]));
            assert(pairs@.contains(given[k]));
            let i = choose|i: int| 0 <= i < pairs@.len() && pairs@[i] == given[k];
            assert(out@[i] == vectors@[k].0);
        }
        assert forall|i: int| 0 <= i < out@.len() implies has_vector(vectors@, #[trigger] out@[i]) by {
            assert(has_vector(vectors@, pairs@[i].1));
        }
    }
    out
}

/// The position of each point's vector.
fn vector_positions(vectors: &Vec<(PointId, Vec<Score>)>) -> (r: HashMap<PointId, usize>)
    requires
        forall|j: int, k: int|
            0 <= j < k < vectors@.len() ==> (#[trigger] vectors@[j]).0 != (#[trigger] vectors@[k]).0,
    ensures
        forall|k: int|
            0 <= k < vectors@.len() ==> r@.dom().contains((#[trigger] vectors@[k]).0) && r@[vectors@[k].0] == k,
{
    let mut out: HashMap<PointId, usize> = HashMap::new();
    let mut k: usize = 0;
    while k < vectors.len()
        invariant
            k <= vectors@.len(),
            forall|j: int, k: int|
                0 <= j < k < vectors@.len() ==> (#[trigger] vectors@[j]).0 != (#[trigger] vectors@[k]).0,
            forall|j: int|
                0 <= j < k ==> out@.dom().contains((#[trigger] vectors@[j]).0) && out@[vectors@[j].0] == j,
        decreases vectors@.len() - k,
    {
        out.insert(vectors[k].0, k);
        k += 1;
    }
    out
}

/// The levels of points.
fn level_map(levels: &Vec<(PointId, usize)>) -> (r: HashMap<PointId, usize>)
    ensures
        forall|id: PointId| #[trigger]
            level_of(levels@, id) == if r@.dom().contains(id) {
                r@[id]
            } else {
                0
            },
{
    let mut out: HashMap<PointId, usize> = HashMap::new();
    let mut k: usize = 0;
    while k < levels.len()
        invariant
            k <= levels@.len(),
            forall|id: PointId| #[trigger]
                level_of(levels@.take(k as int), id) == if out@.dom().contains(id) {
                    out@[id]
                } else {
                    0
                },
        decreases levels@.len() - k,
    {
        let ghost before = out@;
        out.insert(levels[k].0, levels[k].1);
        assert(levels@.take(k + 1).drop_last() =~= levels@.take(k as int));
        assert forall|id: PointId| #[trigger]
            level_of(levels@.take(k + 1), id) == if out@.dom().contains(id) {
                out@[id]
            } else {
                0
            } by {
            assert(level_of(levels@.take(k as int), id) == if before.dom().contains(id) {
                before[id]
            } else {
                0
            });
        }
        k += 1;
    }
    assert(levels@.take(k as int) =~= levels@);
    out
}

/// Whether points are marked.
fn marks(points: &Vec<PointId>) -> (r: HashMap<PointId, bool>)
    ensures
        forall|id: PointId| #[trigger] r@.dom().contains(id) <==> points@.contains(id),
{
    let mut out: HashMap<PointId, bool> = HashMap::new();
    let mut k: usize = 0;
    while k < points.len()
        invariant
            k <= points@.len(),
            forall|id: PointId| #[trigger] out@.dom().contains(id) <==> points@.take(k as int).contains(id),
        decreases points@.len() - k,
    {
        let ghost before = out@;
        out.insert(points[k], true);
        assert forall|id: PointId| #[trigger] out@.dom().contains(id) <==> points@.take(k + 1).contains(id) by {
            assert(before.dom().contains(id) <==> points@.take(k as int).contains(id));
            if points@.take(k as int).contains(id) {
                let shorter = points@.take(k as int);
                let i = choose|i: int| 0 <= i < shorter.len() && shorter[i] == id;
                assert(points@.take(k + 1)[i] == id);
            }
            if id == points@[k as int] {
                assert(points@.take(k + 1)[k as int] == id);
            }
            if points@.take(k + 1).contains(id) && id != points@[k as int] {
                let longer = points@.take(k + 1);
                let i = choose|i: int| 0 <= i < longer.len() && longer[i] == id;
                assert(points@.take(k as int)[i] == id);
            }
        }
        k += 1;
    }
    assert(points@.take(k as int) =~= points@);
    out
}

/// The nodes of those points of a list that have one.
fn known_nodes(alloc: &AllocState, list: &Vec<PointId>) -> (r: Vec<usize>)
    requires
        alloc.wf(),
    ensures
        r@ == known(alloc.point_to_idx@, list@),
        forall|k: int| 0 <= k < r@.len() ==> (#[trigger] r@[k]) < alloc.idx_to_point@.len(),
{
    let mut out: Vec<usize> = Vec::new();
    let mut k: usize = 0;
    while k < list.len()
        invariant
            k <= list@.len(),
            alloc.wf(),
            out@ == known(alloc.point_to_idx@, list@.take(k as int)),
            forall|k: int| 0 <= k < out@.len() ==> (#[trigger] out@[k]) < alloc.idx_to_point@.len(),
        decreases list@.len() - k,
    {
        assert(list@.take(k + 1).drop_last() =~= list@.take(k as int));
        assert(list@.take(k + 1).last() == list@[k as int]);
        if let Some(idx) = alloc.point_to_idx.get(&list[k]) {
            out.push(*idx);
        }
        k += 1;
    }
    assert(list@.take(k as int) =~= list@);
    out
}

/// Puts the stored neighbours of points into a layer.
fn restore_layer(layer: &mut Vec<Vec<usize>>, alloc: &AllocState, entries: &Vec<(PointId, Vec<PointId>)>)
    requires
        alloc.wf(),
        old(layer)@.len() == alloc.idx_to_point@.len(),
    ensures
        final(layer)@.len() == old(layer)@.len(),
        forall|i: int|
            0 <= i < final(layer)@.len() ==> (#[trigger] final(layer)@[i])@ == match list_in(
                lists_view(entries@),
                alloc.idx_to_point@[i],
            ) {
                Some(list) => known(alloc.point_to_idx@, list),
                None => old(layer)@[i]@,
            },
{
    let ghost before = layer@;
    let ghost lists = lists_view(entries@);
    let mut e: usize = 0;
    while e < entries.len()
        invariant
            e <= entries@.len(),
            alloc.wf(),
            lists == lists_view(entries@),
            layer@.len() == before.len(),
            before.len() == alloc.idx_to_point@.len(),
            forall|i: int|
                0 <= i < layer@.len() ==> (#[trigger] layer@[i])@ == match list_in(
                    lists.take(e as int),
                    alloc.idx_to_point@[i],
                ) {
                    Some(list) => known(alloc.point_to_idx@, list),
                    None => before[i]@,
                },
        decreases entries@.len() - e,
    {
        let ghost current = layer@;
        let ghost given = entries@[e as int].1@;
        assert(lists.take(e + 1).drop_last() =~= lists.take(e as int));
        assert(lists.take(e + 1).last() == (entries@[e as int].0, given));
        if let Some(idx) = alloc.point_to_idx.get(&entries[e].0) {
            let nodes: Vec<usize> = known_nodes(alloc, &entries[e].1);
            layer.set(*idx, nodes);
        }
        assert forall|i: int| 0 <= i < layer@.len() implies (#[trigger] layer@[i])@ == match list_in(
            lists.take(e + 1),
            alloc.idx_to_point@[i],
        ) {
            Some(list) => known(alloc.point_to_idx@, list),
            None => before[i]@,
        } by {
            assert(alloc.point_to_idx@.dom().contains(alloc.idx_to_point@[i]));
            assert(current[i]@ == match list_in(lists.take(e as int), alloc.idx_to_point@[i]) {
                Some(list) => known(alloc.point_to_idx@, list),
                None => before[i]@,
            });
        }
        e += 1;
    }
    assert(lists.take(e as int) =~= lists);
}

proof fn lemma_top_layer(layers: Seq<(usize, Seq<(PointId, Seq<PointId>)>)>, j: int)
    requires
        0 <= j < layers.len(),
    ensures
        layers[j].0 <= top_layer(layers),
        0 <= top_layer(layers),
    decreases layers.len(),
{
    if j < layers.len() - 1 {
        lemma_top_layer(layers.drop_last(), j);
    }
}

proof fn lemma_known_bounded(alloc: AllocState, list: Seq<PointId>)
    requires
        alloc.wf(),
    ensures
        forall|k: int|
            0 <= k < known(alloc.point_to_idx@, list).len() ==> (#[trigger] known(alloc.point_to_idx@, list)[k])
                < alloc.idx_to_point@.len(),
    decreases list.len(),
{
    if list.len() > 0 {
        lemma_known_bounded(alloc, list.drop_last());
        let before = known(alloc.point_to_idx@, list.drop_last());
        let out = known(alloc.point_to_idx@, list);
        assert forall|k: int| 0 <= k < out.len() implies (#[trigger] out[k]) < alloc.idx_to_point@.len() by {
            if k < before.len() {
                assert(out[k] == before[k]);
            }
        }
    }
}

/// How many layers the snapshot's graph has.
fn count_layers(snapshot: &HnswSnapshot) -> (r: usize)
    requires
        layer_count(*snapshot) <= usize::MAX,
    ensures
        r == layer_count(*snapshot),
{
    let ghost view = layers_view(snapshot.layers@);
    let mut top: usize = 0;
    let mut j: usize = 0;
    while j < snapshot.layers.len()
        invariant
            j <= snapshot.layers@.len(),
            view == layers_view(snapshot.layers@),
            top == top_layer(view.take(j as int)),
        decreases snapshot.layers@.len() - j,
    {
        assert(view.take(j + 1).drop_last() =~= view.take(j as int));
        assert(view.take(j + 1).last().0 == snapshot.layers@[j as int].0);
        if snapshot.layers[j].0 > top {
            top = snapshot.layers[j].0;
        }
        j += 1;
    }
    assert(view.take(j as int) =~= view);
    let cap: usize = if snapshot.max_level_cap < MAX_STORED_LEVEL {
        snapshot.max_level_cap
    } else {
        MAX_STORED_LEVEL
    };
    let stored: usize = if top < snapshot.current_max_level {
        snapshot.current_max_level
    } else {
        top
    };
    let most: usize = if cap < stored {
        stored
    } else {
        cap
    };
    most + 1
}

/// The layers of a snapshot over its nodes.
fn restore_layers(snapshot: &HnswSnapshot, alloc: &AllocState, count: usize) -> (r: Vec<Vec<Vec<usize>>>)
    requires
        alloc.wf(),
        count == layer_count(*snapshot),
    ensures
        r@.len() == count,
        forall|l: int| 0 <= l < count ==> (#[trigger] r@[l])@.len() == alloc.idx_to_point@.len(),
        forall|l: int, i: int|
            0 <= l < count && 0 <= i < alloc.idx_to_point@.len() ==> (#[trigger] r@[l]@[i])@ == known(
                alloc.point_to_idx@,
                list_at(layers_view(snapshot.layers@), l, alloc.idx_to_point@[i]),
            ),
{
    let n: usize = alloc.node_count;
    let ghost view = layers_view(snapshot.layers@);
    let mut layers: Vec<Vec<Vec<usize>>> = Vec::with_capacity(count);
    let mut l: usize = 0;
    while l < count
        invariant
            l <= count,
            layers@.len() == l,
            forall|k: int| 0 <= k < l ==> (#[trigger] layers@[k])@.len() == n,
            forall|k: int, i: int| 0 <= k < l && 0 <= i < n ==> (#[trigger] layers@[k]@[i])@.len() == 0,
        decreases count - l,
    {
        let mut layer: Vec<Vec<usize>> = Vec::with_capacity(n);
        let mut i: usize = 0;
        while i < n
            invariant
                i <= n,
                layer@.len() == i,
                forall|k: int| 0 <= k < i ==> (#[trigger] layer@[k])@.len() == 0,
            decreases n - i,
        {
            layer.push(Vec::new());
            i += 1;
        }
        layers.push(layer);
        l += 1;
    }
    assert forall|l: int, i: int| 0 <= l < count && 0 <= i < n implies (#[trigger] layers@[l]@[i])@ == known(
        alloc.point_to_idx@,
        list_at(view.take(0), l, alloc.idx_to_point@[i]),
    ) by {
        assert(layers@[l]@[i]@ =~= Seq::<usize>::empty());
    }
    let mut j: usize = 0;
    while j < snapshot.layers.len()
        invariant
            j <= snapshot.layers@.len(),
            alloc.wf(),
            n == alloc.idx_to_point@.len(),
            count == layer_count(*snapshot),
            view == layers_view(snapshot.layers@),
            layers@.len() == count,
            forall|l: int| 0 <= l < count ==> (#[trigger] layers@[l])@.len() == n,
            forall|l: int, i: int|
                0 <= l < count && 0 <= i < n ==> (#[trigger] layers@[l]@[i])@ == known(
                    alloc.point_to_idx@,
                    list_at(view.take(j as int), l, alloc.idx_to_point@[i]),
                ),
        decreases snapshot.layers@.len() - j,
    {
        let ghost current = layers@;
        let level: usize = snapshot.layers[j].0;
        proof {
            lemma_top_layer(view, j as int);
            assert(view.take(j + 1).drop_last() =~= view.take(j as int));
            assert(view.take(j + 1).last() == (level, lists_view(snapshot.layers@[j as int].1@)));
        }
        restore_layer(&mut layers[level], alloc, &snapshot.layers[j].1);
        assert forall|l: int, i: int| 0 <= l < count && 0 <= i < n implies (#[trigger] layers@[l]@[i])@ == known(
            alloc.point_to_idx@,
            list_at(view.take(j + 1), l, alloc.idx_to_point@[i]),
        ) by {
            assert(current[l]@[i]@ == known(
                alloc.point_to_idx@,
                list_at(view.take(j as int), l, alloc.idx_to_point@[i]),
            ));
            if l == level {
                assert(layers@[l]@[i]@ == match list_in(
                    lists_view(snapshot.layers@[j as int].1@),
                    alloc.idx_to_point@[i],
                ) {
                    Some(list) => known(alloc.point_to_idx@, list),
                    None => current[l]@[i]@,
                });
            } else {
                assert(layers@[l] == current[l]);
            }
        }
        j += 1;
    }
    assert(view.take(j as int) =~= view);
    layers
}

impl HNSWIndex {
    /// The graph that a snapshot holds.
    ///
    /// Its nodes stand in ascending order of the ids. Whether small result sets are
    /// completed by a full scan, and below how many points one is made, come from
    /// `enabled` and `threshold` where they are given.
    pub fn from_snapshot(snapshot: HnswSnapshot, enabled: Option<bool>, threshold: Option<usize>) -> (r: Self)
        requires
            restorable(snapshot),
        ensures
            r.wf(),
            is_restored(snapshot, r, enabled, threshold),
    {
        let m0: usize = if snapshot.m0 == 0 {
            snapshot.m * 2
        } else {
            snapshot.m0
        };
        let stored_cap_l0: usize = if snapshot.stored_cap_l0 == 0 {
            m0
        } else {
            snapshot.stored_cap_l0
        };
        let ids: Vec<PointId> = sorted_ids(&snapshot.vectors);
        let n: usize = ids.len();
        assert(ids@.no_duplicates()) by {
            assert forall|i: int, j: int| 0 <= i < ids@.len() && 0 <= j < ids@.len() && i != j implies ids@[i]
                != ids@[j] by {
                if i < j {
                    assert(ids@[i] < ids@[j]);
                } else {
                    assert(ids@[j] < ids@[i]);
                }
            }
        }
        let alloc: AllocState = reorder::allocation(&ids);
        let positions: HashMap<PointId, usize> = vector_positions(&snapshot.vectors);
        let level_by_id: HashMap<PointId, usize> = level_map(&snapshot.levels);
        let marked: HashMap<PointId, bool> = marks(&snapshot.deleted);
        let mut vectors: VectorArena = VectorArena::new(snapshot.dim, CHUNK_CAP);
        let mut levels: Vec<u8> = Vec::with_capacity(n);
        let mut deleted: Vec<bool> = Vec::with_capacity(n);
        let mut node_state: Vec<u8> = Vec::with_capacity(n);
        let mut edge_dists_l0: Vec<Vec<Score>> = Vec::with_capacity(n);
        let mut deleted_count: usize = 0;
        let mut i: usize = 0;
        while i < n
            invariant
                i <= n,
                n == ids@.len(),
                restorable(snapshot),
                forall|i: int| 0 <= i < ids@.len() ==> has_vector(snapshot.vectors@, #[trigger] ids@[i]),
                forall|k: int|
                    0 <= k < snapshot.vectors@.len() ==> positions@.dom().contains((#[trigger] snapshot.vectors@[k]).0)
                        && positions@[snapshot.vectors@[k].0] == k,
                forall|id: PointId| #[trigger]
                    level_of(snapshot.levels@, id) == if level_by_id@.dom().contains(id) {
                        level_by_id@[id]
                    } else {
                        0
                    },
                forall|id: PointId| #[trigger] marked@.dom().contains(id) <==> snapshot.deleted@.contains(id),
                vectors.wf(),
                vectors.dimension() == snapshot.dim,
                vectors.vectors().len() == i,
                levels@.len() == i,
                deleted@.len() == i,
                node_state@.len() == i,
                edge_dists_l0@.len() == i,
                deleted_count == graph::flag_count(deleted@),
                deleted_count <= i,
                forall|j: int| 0 <= j < i ==> restored_vector(snapshot, #[trigger] ids@[j], vectors.vectors()[j]),
                forall|j: int|
                    0 <= j < i ==> #[trigger] levels@[j] == smaller(
                        level_of(snapshot.levels@, ids@[j]) as int,
                        MAX_STORED_LEVEL as int,
                    ),
                forall|j: int| 0 <= j < i ==> #[trigger] deleted@[j] == snapshot.deleted@.contains(ids@[j]),
                forall|j: int|
                    0 <= j < i ==> #[trigger] node_state@[j] == if deleted@[j] {
                        NODE_DELETED
                    } else {
                        NODE_LIVE
                    },
                forall|j: int| 0 <= j < i ==> (#[trigger] edge_dists_l0@[j])@.len() == 0,
            decreases n - i,
        {
            let id: PointId = ids[i];
            assert(has_vector(snapshot.vectors@, ids@[i as int]));
            let ghost at = choose|k: int| 0 <= k < snapshot.vectors@.len() && (#[trigger] snapshot.vectors@[k]).0 == id;
            let ghost before = vectors.vectors();
            match positions.get(&id) {
                Some(k) => {
                    assert(*k == at);
                    vectors.push(snapshot.vectors[*k].1.as_slice());
                },
                None => {
                    assert(positions@.dom().contains(snapshot.vectors@[at].0));
                },
            }
            assert(restored_vector(snapshot, ids@[i as int], vectors.vectors()[i as int])) by {
                assert(vector_at(snapshot, at, id));
            }
            let level: usize = match level_by_id.get(&id) {
                Some(level) => *level,
                None => 0,
            };
            assert(level == level_of(snapshot.levels@, ids@[i as int]));
            levels.push(
                if level < MAX_STORED_LEVEL {
                    level as u8
                } else {
                    MAX_STORED_LEVEL as u8
                },
            );
            let gone: bool = marked.contains_key(&id);
            proof {
                graph::lemma_flag_count_push(deleted@, gone);
            }
            deleted.push(gone);
            if gone {
                deleted_count += 1;
                node_state.push(NODE_DELETED);
            } else {
                node_state.push(NODE_LIVE);
            }
            edge_dists_l0.push(Vec::new());
            i += 1;
        }
        let count: usize = count_layers(&snapshot);
        let layers: Vec<Vec<Vec<usize>>> = restore_layers(&snapshot, &alloc, count);
        let top: usize = if snapshot.current_max_level < MAX_STORED_LEVEL {
            snapshot.current_max_level
        } else {
            MAX_STORED_LEVEL
        };
        let max_level_cap: usize = if snapshot.max_level_cap < MAX_STORED_LEVEL {
            snapshot.max_level_cap
        } else {
            MAX_STORED_LEVEL
        };
        let entry: Option<usize> = match snapshot.entry_point {
            Some(id) => match alloc.point_to_idx.get(&id) {
                Some(idx) => Some(*idx),
                None => None,
            },
            None => None,
        };
        proof {
            lemma_entry(entry, top as int);
        }
        let entry_level_ep: u64 = match entry {
            Some(idx) => graph::pack_ep(idx, top),
            None => graph::pack_ep(NO_EP as usize, top),
        };
        let exact_fallback_enabled: bool = match enabled {
            Some(enabled) => enabled,
            None => false,
        };
        let exact_fallback_threshold: usize = match threshold {
            Some(threshold) => threshold,
            None => snapshot.exact_fallback_threshold,
        };
        let ghost nodes = alloc.point_to_idx@;
        let index = HNSWIndex {
            layers,
            vectors,
            levels,
            entry_level_ep,
            metric: snapshot.metric,
            m: snapshot.m,
            m0,
            stored_cap_l0,
            ef: snapshot.ef,
            ef_construct: snapshot.ef_construct,
            max_level_cap,
            level_scale: snapshot.level_scale,
            dim: snapshot.dim,
            deleted,
            deleted_count,
            edge_dists_l0,
            quantized: Vec::new(),
            quant_min: Vec::new(),
            quant_scale: Vec::new(),
            node_state,
            ids,
            alloc,
            exact_fallback_enabled,
            exact_fallback_threshold,
        };
        proof {
            let links = index.links();
            assert forall|l: int, i: int| 0 <= l < index.layers@.len() && 0 <= i < n implies #[trigger] links[l][i]
                == known(
                index.alloc.point_to_idx@,
                list_at(layers_view(snapshot.layers@), l, index.ids@[i]),
            ) by {
                assert(links[l][i] == index.layers@[l]@[i]@);
            }
            assert forall|l: int, i: int, k: int|
                0 <= l < links.len() && 0 <= i < links[l].len() && 0 <= k < links[l][i].len() implies (
            #[trigger] links[l][i][k]) < index.nodes() by {
                assert(index.layers@[l]@.len() == n);
                lemma_known_bounded(
                    index.alloc,
                    list_at(layers_view(snapshot.layers@), l, index.ids@[i]),
                );
            }
            assert forall|i: int| 0 <= i < n implies (#[trigger] index.dists()[i]).len() == 0 by {
                assert(index.edge_dists_l0@[i]@.len() == 0);
            }
            assert(index.alloc.wf());
            assert(index.wf());
        }
        index
    }
}

proof fn lemma_entry(entry: Option<usize>, top: int)
    requires
        0 <= top <= MAX_STORED_LEVEL,
        entry is Some ==> entry->0 < NO_EP,
    ensures
        entry is Some ==> graph::unpacked_ep(graph::packed_ep(entry->0 as int, top) as u64) == (
            Some(entry->0 as int),
            top,
        ),
        graph::unpacked_ep(graph::packed_ep(NO_EP as int, top) as u64) == (None::<int>, top),
{
    graph::law_unpack_of_pack(NO_EP as int, top);
    if entry is Some {
        graph::law_unpack_of_pack(entry->0 as int, top);
    }
}

} // verus!
