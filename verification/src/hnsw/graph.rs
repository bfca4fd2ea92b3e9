//! The graph: its nodes, its entry point and its settings.

use vstd::prelude::*;
use std::collections::HashMap;
use crate::hnsw::arena::VectorArena;
use crate::hnsw::types::{DBError, DistanceMetric, PointId};
use crate::score;
use crate::score::Score;

verus! {

broadcast use vstd::std_specs::hash::group_hash_axioms;

/// A node whose links are not written yet.
pub const NODE_RESERVED: u8 = 0;

/// A node that searches may find.
pub const NODE_LIVE: u8 = 1;

/// A node that was deleted.
pub const NODE_DELETED: u8 = 2;

/// The entry point of a graph without one.
pub const NO_EP: u32 = 0xffff_ffff;

/// The highest level that a node can have.
pub const MAX_STORED_LEVEL: usize = 255;

/// How many vectors a chunk of the storage holds.
pub const CHUNK_CAP: usize = 4096;

/// An entry point and a level in one number: the level above, the entry point in
/// the lower 32 bits.
pub open spec fn packed_ep(entry_idx: int, max_level: int) -> int {
    max_level * 0x1_0000_0000 + entry_idx
}

/// The entry point and the level that a number holds.
pub open spec fn unpacked_ep(v: u64) -> (Option<int>, int) {
    let idx = v as int % 0x1_0000_0000;
    (
        if idx == NO_EP {
            None
        } else {
            Some(idx)
        },
        v as int / 0x1_0000_0000,
    )
}

/// Packs an entry point and a level.
pub fn pack_ep(entry_idx: usize, max_level: usize) -> (r: u64)
    requires
        entry_idx <= u32::MAX,
        max_level <= u32::MAX,
    ensures
        r == packed_ep(entry_idx as int, max_level as int),
{
    max_level as u64 * 0x1_0000_0000 + entry_idx as u64
}

/// Unpacks an entry point and a level.
pub fn unpack_ep(v: u64) -> (r: (Option<usize>, usize))
    ensures
        r.0 is Some <==> unpacked_ep(v).0 is Some,
        r.0 is Some ==> r.0->0 == unpacked_ep(v).0->0,
        r.1 == unpacked_ep(v).1,
{
    let idx: u64 = v % 0x1_0000_0000;
    let level: usize = (v / 0x1_0000_0000) as usize;
    if idx == NO_EP as u64 {
        (None, level)
    } else {
        (Some(idx as usize), level)
    }
}

/// What was packed is unpacked again.
pub proof fn law_unpack_of_pack(entry_idx: int, max_level: int)
    requires
        0 <= entry_idx <= u32::MAX,
        0 <= max_level <= u32::MAX,
    ensures
        0 <= packed_ep(entry_idx, max_level) <= u64::MAX,
        unpacked_ep(packed_ep(entry_idx, max_level) as u64) == (
            if entry_idx == NO_EP {
                None
            } else {
                Some(entry_idx)
            },
            max_level,
        ),
{
}

/// The nodes by the ids of their points.
pub struct AllocState {
    pub point_to_idx: HashMap<PointId, usize>,
    pub idx_to_point: Vec<PointId>,
    pub node_count: usize,
}

/// A graph.
pub struct HNSWIndex {
    /// For each level, the neighbours of each node there.
    pub layers: Vec<Vec<Vec<usize>>>,
    pub vectors: VectorArena,
    pub levels: Vec<u8>,
    /// The entry point and the highest level, packed.
    pub entry_level_ep: u64,
    pub metric: DistanceMetric,
    /// The neighbours that a node gets above the lowest layer.
    pub m: usize,
    /// The neighbours that a node gets in the lowest layer.
    pub m0: usize,
    /// The neighbours that a node keeps in the lowest layer.
    pub stored_cap_l0: usize,
    pub ef: usize,
    pub ef_construct: usize,
    pub max_level_cap: usize,
    /// The bit pattern of the double-precision number that scales levels.
    pub level_scale: u64,
    pub dim: usize,
    pub deleted: Vec<bool>,
    pub deleted_count: usize,
    /// For each node, the scores of its neighbours in the lowest layer.
    pub edge_dists_l0: Vec<Vec<Score>>,
    pub quantized: Vec<u8>,
    pub quant_min: Vec<Score>,
    pub quant_scale: Vec<Score>,
    pub node_state: Vec<u8>,
    pub ids: Vec<PointId>,
    pub alloc: AllocState,
    pub exact_fallback_enabled: bool,
    pub exact_fallback_threshold: usize,
}

/// The settings of a graph.
#[derive(Clone, Copy, Debug, PartialEq, Eq, Structural)]
pub struct HnswConfigSummary {
    pub metric: DistanceMetric,
    pub m: usize,
    pub m0: usize,
    pub stored_cap_l0: usize,
    pub ef: usize,
    pub ef_construct: usize,
    pub max_level_cap: usize,
    pub level_scale: u64,
    pub current_max_level: usize,
    pub dim: usize,
    pub exact_fallback_enabled: bool,
    pub exact_fallback_threshold: usize,
}

/// How many flags are set.
pub open spec fn flag_count(flags: Seq<bool>) -> nat
    decreases flags.len(),
{
    if flags.len() == 0 {
        0
    } else {
        flag_count(flags.drop_last()) + if flags.last() {
            1nat
        } else {
            0nat
        }
    }
}

pub(crate) proof fn lemma_flag_count_bound(flags: Seq<bool>)
    ensures
        flag_count(flags) <= flags.len(),
    decreases flags.len(),
{
    if flags.len() > 0 {
        lemma_flag_count_bound(flags.drop_last());
    }
}

pub(crate) proof fn lemma_flag_count_push(flags: Seq<bool>, flag: bool)
    ensures
        flag_count(flags.push(flag)) == flag_count(flags) + if flag {
            1nat
        } else {
            0nat
        },
{
    assert(flags.push(flag).drop_last() =~= flags);
}

pub(crate) proof fn lemma_flag_count_set(flags: Seq<bool>, at: int)
    requires
        0 <= at < flags.len(),
        !flags[at],
    ensures
        flag_count(flags.update(at, true)) == flag_count(flags) + 1,
        flag_count(flags) < flags.len(),
    decreases flags.len(),
{
    let after = flags.update(at, true);
    lemma_flag_count_bound(flags.drop_last());
    if at == flags.len() - 1 {
        assert(after.drop_last() =~= flags.drop_last());
    } else {
        lemma_flag_count_set(flags.drop_last(), at);
        assert(after.drop_last() =~= flags.drop_last().update(at, true));
    }
}

/// The key that orders a score: the smaller one is the better.
pub open spec fn order_key(metric: DistanceMetric, raw: Score) -> Score {
    match metric {
        DistanceMetric::Dot => score::negated(raw),
        _ => raw,
    }
}

impl AllocState {
    /// Whether the map finds each point at its node, and nothing else.
    pub open spec fn wf(&self) -> bool {
        &&& self.node_count == self.idx_to_point@.len()
        &&& self.idx_to_point@.no_duplicates()
        &&& forall|i: int|
            0 <= i < self.idx_to_point@.len() ==> self.point_to_idx@.dom().contains(#[trigger] self.idx_to_point@[i])
                && self.point_to_idx@[self.idx_to_point@[i]] == i
        &&& forall|id: PointId|
            #[trigger] self.point_to_idx@.dom().contains(id) ==> self.point_to_idx@[id] < self.idx_to_point@.len()
                && self.idx_to_point@[self.point_to_idx@[id] as int] == id
    }
}

impl HNSWIndex {
    /// The number of nodes.
    pub open spec fn nodes(&self) -> nat {
        self.ids@.len()
    }

    /// The neighbours of each node in each layer.
    pub open spec fn links(&self) -> Seq<Seq<Seq<usize>>> {
        self.layers@.map_values(|layer: Vec<Vec<usize>>| layer@.map_values(|list: Vec<usize>| list@))
    }

    /// The scores of each node's neighbours in the lowest layer.
    pub open spec fn dists(&self) -> Seq<Seq<Score>> {
        self.edge_dists_l0@.map_values(|row: Vec<Score>| row@)
    }

    /// The entry point.
    pub open spec fn entry(&self) -> Option<int> {
        unpacked_ep(self.entry_level_ep).0
    }

    /// The highest level.
    pub open spec fn top_level(&self) -> int {
        unpacked_ep(self.entry_level_ep).1
    }

    /// The node of a point.
    pub open spec fn node_of(&self, id: PointId) -> Option<int> {
        if self.alloc.point_to_idx@.dom().contains(id) {
            Some(self.alloc.point_to_idx@[id] as int)
        } else {
            None
        }
    }

    /// Whether a node exists and is not deleted.
    pub open spec fn present(&self, idx: int) -> bool {
        0 <= idx < self.nodes() && !self.deleted@[idx]
    }

    /// Whether every array has an entry for every node, every neighbour is a node,
    /// and the counts and the entry point match the nodes.
    pub open spec fn wf(&self) -> bool {
        &&& self.alloc.wf()
        &&& self.alloc.idx_to_point@ == self.ids@
        &&& self.ids@.len() <= NO_EP
        &&& self.vectors.wf()
        &&& self.vectors.vectors().len() == self.nodes()
        &&& self.vectors.dimension() == self.dim
        &&& CHUNK_CAP * self.dim <= usize::MAX
        &&& self.levels@.len() == self.nodes()
        &&& self.deleted@.len() == self.nodes()
        &&& self.edge_dists_l0@.len() == self.nodes()
        &&& self.node_state@.len() == self.nodes()
        &&& self.max_level_cap <= MAX_STORED_LEVEL
        &&& self.layers@.len() > self.max_level_cap
        &&& forall|l: int| 0 <= l < self.layers@.len() ==> (#[trigger] self.layers@[l])@.len() == self.nodes()
        &&& links_in_range(self.links(), self.nodes())
        &&& self.deleted_count == flag_count(self.deleted@)
        &&& self.entry() matches Some(e) ==> e < self.nodes()
        &&& self.top_level() <= MAX_STORED_LEVEL
        &&& self.m0 == 0 ==> self.m == 0
        &&& self.stored_cap_l0 == 0 ==> self.m0 == 0
    }
}

/// Whether a function may return `out` for a list.
pub open spec fn gives<F: FnOnce(&[usize]) -> R, R>(f: F, list: Seq<usize>, out: R) -> bool {
    exists|slice: &[usize]| slice@ == list && #[trigger] call_ensures(f, (slice,), out)
}

/// Whether every neighbour is one of `nodes` nodes.
pub open spec fn links_in_range(links: Seq<Seq<Seq<usize>>>, nodes: nat) -> bool {
    forall|l: int, i: int, k: int|
        0 <= l < links.len() && 0 <= i < links[l].len() && 0 <= k < links[l][i].len() ==> (#[trigger] links[l][i][k])
            < nodes
}

impl HNSWIndex {
    /// A graph without nodes.
    ///
    /// `level_scale` is the bit pattern of the number that scales levels.
    pub fn new(
        metric: DistanceMetric,
        m: usize,
        ef: usize,
        max_level_cap: usize,
        dim: usize,
        level_scale: u64,
        exact_fallback_enabled: bool,
        exact_fallback_threshold: usize,
    ) -> (r: Self)
        requires
            dim > 0,
            CHUNK_CAP * dim <= usize::MAX,
            m * 2 <= usize::MAX,
        ensures
            r.wf(),
            r.nodes() == 0,
            r.entry() is None,
            r.top_level() == 0,
            r.metric == metric,
            r.m == m,
            r.m0 == m * 2,
            r.stored_cap_l0 == m * 2,
            r.ef == ef,
            r.ef_construct == ef,
            r.max_level_cap == if max_level_cap < MAX_STORED_LEVEL {
                max_level_cap
            } else {
                MAX_STORED_LEVEL
            },
            r.layers@.len() == r.max_level_cap + 1,
            r.level_scale == level_scale,
            r.dim == dim,
            r.deleted_count == 0,
            r.quantized@.len() == 0,
            r.quant_min@.len() == 0,
            r.quant_scale@.len() == 0,
            r.exact_fallback_enabled == exact_fallback_enabled,
            r.exact_fallback_threshold == exact_fallback_threshold,
    {
        let cap: usize = if max_level_cap < MAX_STORED_LEVEL {
            max_level_cap
        } else {
            MAX_STORED_LEVEL
        };
        let mut layers: Vec<Vec<Vec<usize>>> = Vec::with_capacity(cap + 1);
        let mut l: usize = 0;
        while l <= cap
            invariant
                l <= cap + 1,
                cap <= MAX_STORED_LEVEL,
                layers@.len() == l,
                forall|k: int| 0 <= k < l ==> (#[trigger] layers@[k])@.len() == 0,
            decreases cap + 1 - l,
        {
            layers.push(Vec::new());
            l += 1;
        }
        proof {
            law_unpack_of_pack(NO_EP as int, 0);
        }
        HNSWIndex {
            layers,
            vectors: VectorArena::new(dim, CHUNK_CAP),
            levels: Vec::new(),
            entry_level_ep: pack_ep(NO_EP as usize, 0),
            metric,
            m,
            m0: m * 2,
            stored_cap_l0: m * 2,
            ef,
            ef_construct: ef,
            max_level_cap: cap,
            level_scale,
            dim,
            deleted: Vec::new(),
            deleted_count: 0,
            edge_dists_l0: Vec::new(),
            quantized: Vec::new(),
            quant_min: Vec::new(),
            quant_scale: Vec::new(),
            node_state: Vec::new(),
            ids: Vec::new(),
            alloc: AllocState { point_to_idx: HashMap::new(), idx_to_point: Vec::new(), node_count: 0 },
            exact_fallback_enabled,
            exact_fallback_threshold,
        }
    }

    /// The node of a point.
    pub fn idx_of(&self, point_id: PointId) -> (r: Option<usize>)
        requires
            self.wf(),
        ensures
            r is Some <==> self.node_of(point_id) is Some,
            r matches Some(idx) ==> idx == self.node_of(point_id)->0 && idx < self.nodes() && self.ids@[idx as int]
                == point_id,
    {
        match self.alloc.point_to_idx.get(&point_id) {
            Some(idx) => Some(*idx),
            None => None,
        }
    }

    /// Whether there is a node for a point.
    pub fn contains(&self, point_id: &PointId) -> (r: bool)
        requires
            self.wf(),
        ensures
            r == self.ids@.contains(*point_id),
            r == self.node_of(*point_id) is Some,
    {
        let r: bool = self.alloc.point_to_idx.contains_key(point_id);
        proof {
            if self.ids@.contains(*point_id) {
                let i = choose|i: int| 0 <= i < self.ids@.len() && self.ids@[i] == *point_id;
                assert(self.alloc.idx_to_point@[i] == *point_id);
            }
            if r {
                let i = self.alloc.point_to_idx@[*point_id] as int;
                assert(self.ids@[i] == *point_id);
            }
        }
        r
    }

    /// The number of nodes.
    pub fn len(&self) -> (r: usize)
        requires
            self.wf(),
        ensures
            r == self.nodes(),
    {
        self.alloc.node_count
    }

    /// The level of a point.
    pub fn point_level(&self, point_id: PointId) -> (r: Option<usize>)
        requires
            self.wf(),
        ensures
            r is Some <==> self.node_of(point_id) is Some,
            r matches Some(level) ==> level == self.levels@[self.node_of(point_id)->0],
    {
        match self.idx_of(point_id) {
            Some(idx) => Some(self.levels[idx] as usize),
            None => None,
        }
    }

    /// How many neighbours a point has in a layer.
    pub fn point_degree(&self, point_id: PointId, level: usize) -> (r: Option<usize>)
        requires
            self.wf(),
        ensures
            r is Some <==> self.node_of(point_id) is Some && level < self.layers@.len(),
            r matches Some(degree) ==> degree == self.links()[level as int][self.node_of(point_id)->0].len(),
    {
        match self.idx_of(point_id) {
            Some(idx) => if level < self.layers.len() {
                assert(self.layers@[level as int]@.len() == self.nodes());
                Some(self.layers[level][idx].len())
            } else {
                None
            },
            None => None,
        }
    }

    /// The entry point.
    pub fn entry_point(&self) -> (r: Option<usize>)
        ensures
            r is Some <==> self.entry() is Some,
            r matches Some(e) ==> e == self.entry()->0,
    {
        unpack_ep(self.entry_level_ep).0
    }

    /// The highest level.
    pub fn current_max_level(&self) -> (r: usize)
        ensures
            r == self.top_level(),
    {
        unpack_ep(self.entry_level_ep).1
    }

    /// The entry point and the highest level.
    pub fn entry_level(&self) -> (r: (Option<usize>, usize))
        ensures
            r.0 is Some <==> self.entry() is Some,
            r.0 matches Some(e) ==> e == self.entry()->0,
            r.1 == self.top_level(),
    {
        unpack_ep(self.entry_level_ep)
    }

    /// Sets the entry point and the highest level.
    pub fn store_entry_level(&mut self, idx: usize, level: usize)
        requires
            old(self).wf(),
            idx < old(self).nodes(),
            level <= MAX_STORED_LEVEL,
        ensures
            final(self).wf(),
            *final(self) == (HNSWIndex { entry_level_ep: packed_ep(idx as int, level as int) as u64, ..*old(self) }),
            final(self).entry() == Some(idx as int),
            final(self).top_level() == level,
    {
        proof {
            law_unpack_of_pack(idx as int, level as int);
        }
        self.entry_level_ep = pack_ep(idx, level);
    }

    /// Makes a node the entry point if its level is above the highest.
    pub fn promote_entry_if_higher(&mut self, idx: usize, level: usize)
        requires
            old(self).wf(),
            idx < old(self).nodes(),
            level <= MAX_STORED_LEVEL,
        ensures
            final(self).wf(),
            level > old(self).top_level() ==> *final(self) == (HNSWIndex {
                entry_level_ep: packed_ep(idx as int, level as int) as u64,
                ..*old(self)
            }) && final(self).entry() == Some(idx as int) && final(self).top_level() == level,
            level <= old(self).top_level() ==> *final(self) == *old(self),
    {
        if level > self.current_max_level() {
            self.store_entry_level(idx, level);
        }
    }

    /// The state of a node.
    pub fn state_of(&self, idx: usize) -> (r: u8)
        requires
            self.wf(),
            idx < self.nodes(),
        ensures
            r == self.node_state@[idx as int],
    {
        self.node_state[idx]
    }

    /// Whether searches may find a node.
    pub fn is_live(&self, idx: usize) -> (r: bool)
        requires
            self.wf(),
            idx < self.nodes(),
        ensures
            r == (self.node_state@[idx as int] == NODE_LIVE),
    {
        self.node_state[idx] == NODE_LIVE
    }

    /// The vector of a node.
    pub fn vector_slice(&self, idx: usize) -> (r: &[Score])
        requires
            self.wf(),
            idx < self.nodes(),
        ensures
            r@ == self.vectors.vectors()[idx as int],
            r@.len() == self.dim,
    {
        self.vectors.get_direct(idx)
    }

    /// The level of a new node, from what was drawn for it.
    pub fn clamp_level(&self, drawn: usize) -> (r: usize)
        ensures
            r == if drawn < self.max_level_cap {
                drawn
            } else {
                self.max_level_cap
            },
    {
        if drawn < self.max_level_cap {
            drawn
        } else {
            self.max_level_cap
        }
    }

    /// The key that orders a score: the smaller one is the better.
    pub fn normalize_score(&self, raw: Score) -> (r: Score)
        ensures
            r == order_key(self.metric, raw),
    {
        match self.metric {
            DistanceMetric::Cosine | DistanceMetric::Euclidean => raw,
            DistanceMetric::Dot => score::negate(raw),
        }
    }

    /// The id of a node's point.
    pub fn point_id(&self, idx: usize) -> (r: PointId)
        requires
            self.wf(),
            idx < self.nodes(),
        ensures
            r == self.ids@[idx as int],
    {
        self.ids[idx]
    }

    /// The vector of a node that is not deleted.
    pub fn get_vector_by_idx(&self, idx: usize) -> (r: Option<&[Score]>)
        requires
            self.wf(),
        ensures
            r is Some <==> self.present(idx as int),
            r matches Some(v) ==> v@ == self.vectors.vectors()[idx as int] && v@.len() == self.dim,
    {
        if idx >= self.vectors.len() || self.deleted[idx] {
            None
        } else {
            Some(self.vector_slice(idx))
        }
    }

    /// The vector of a point that is not deleted.
    pub fn get_vector(&self, point_id: &PointId) -> (r: Option<&[Score]>)
        requires
            self.wf(),
        ensures
            r is Some <==> self.node_of(*point_id) is Some && self.present(self.node_of(*point_id)->0),
            r matches Some(v) ==> v@ == self.vectors.vectors()[self.node_of(*point_id)->0],
    {
        match self.idx_of(*point_id) {
            Some(idx) => self.get_vector_by_idx(idx),
            None => None,
        }
    }

    /// How long a node's list may be in a layer, its link to itself counted.
    pub open spec fn capacity(&self, level: int) -> int {
        if level == 0 {
            self.stored_cap_l0 + 1
        } else {
            self.m + 1
        }
    }

    /// How long a node's list may be in a layer, its link to itself counted.
    pub fn neighbor_list_capacity(&self, level: usize) -> (r: usize)
        requires
            self.capacity(level as int) <= usize::MAX,
        ensures
            r == self.capacity(level as int),
    {
        if level == 0 {
            self.stored_cap_l0 + 1
        } else {
            self.m + 1
        }
    }

    /// The settings.
    pub fn config_summary(&self) -> (r: HnswConfigSummary)
        ensures
            r == (HnswConfigSummary {
                metric: self.metric,
                m: self.m,
                m0: self.m0,
                stored_cap_l0: self.stored_cap_l0,
                ef: self.ef,
                ef_construct: self.ef_construct,
                max_level_cap: self.max_level_cap,
                level_scale: self.level_scale,
                current_max_level: self.top_level() as usize,
                dim: self.dim,
                exact_fallback_enabled: self.exact_fallback_enabled,
                exact_fallback_threshold: self.exact_fallback_threshold,
            }),
    {
        HnswConfigSummary {
            metric: self.metric,
            m: self.m,
            m0: self.m0,
            stored_cap_l0: self.stored_cap_l0,
            ef: self.ef,
            ef_construct: self.ef_construct,
            max_level_cap: self.max_level_cap,
            level_scale: self.level_scale,
            current_max_level: self.current_max_level(),
            dim: self.dim,
            exact_fallback_enabled: self.exact_fallback_enabled,
            exact_fallback_threshold: self.exact_fallback_threshold,
        }
    }

    /// The neighbours of a node in a layer.
    pub fn layer_neighbors(&self, level: usize, idx: usize) -> (r: Option<Vec<usize>>)
        requires
            self.wf(),
        ensures
            r is Some <==> level < self.layers@.len() && idx < self.nodes(),
            r matches Some(list) ==> list@ == self.links()[level as int][idx as int],
    {
        if level >= self.layers.len() {
            return None;
        }
        assert(self.layers@[level as int]@.len() == self.nodes());
        if idx >= self.layers[level].len() {
            return None;
        }
        let list: Vec<usize> = self.layers[level][idx].clone();
        assert(list@ =~= self.layers@[level as int]@[idx as int]@);
        Some(list)
    }

    /// Hands the neighbours of a node in a layer to a function.
    pub fn with_layer_neighbors<F: FnOnce(&[usize]) -> R, R>(&self, level: usize, idx: usize, f: F) -> (r: Option<R>)
        requires
            self.wf(),
            forall|list: &[usize]| #[trigger] call_requires(f, (list,)),
        ensures
            r is Some <==> level < self.layers@.len() && idx < self.nodes(),
            r matches Some(out) ==> gives(f, self.links()[level as int][idx as int], out),
    {
        if level >= self.layers.len() {
            return None;
        }
        assert(self.layers@[level as int]@.len() == self.nodes());
        if idx >= self.layers[level].len() {
            return None;
        }
        let list: &[usize] = self.layers[level][idx].as_slice();
        assert(list@ == self.links()[level as int][idx as int]);
        let out: R = f(list);
        assert(gives(f, self.links()[level as int][idx as int], out));
        Some(out)
    }

    /// How many nodes are deleted.
    pub fn deleted_count(&self) -> (r: usize)
        ensures
            r == self.deleted_count,
    {
        self.deleted_count
    }

    /// The metric.
    pub fn metric(&self) -> (r: DistanceMetric)
        ensures
            r == self.metric,
    {
        self.metric
    }

    /// The neighbours that a node gets above the lowest layer.
    pub fn m(&self) -> (r: usize)
        ensures
            r == self.m,
    {
        self.m
    }

    /// The neighbours that a node gets in the lowest layer.
    pub fn m0(&self) -> (r: usize)
        ensures
            r == self.m0,
    {
        self.m0
    }

    /// The size of the candidate list of a search.
    pub fn ef(&self) -> (r: usize)
        ensures
            r == self.ef,
    {
        self.ef
    }

    /// The neighbours that a node keeps in the lowest layer.
    pub fn stored_cap_l0(&self) -> (r: usize)
        ensures
            r == self.stored_cap_l0,
    {
        self.stored_cap_l0
    }

    /// The highest level that a node may get.
    pub fn max_level_cap(&self) -> (r: usize)
        ensures
            r == self.max_level_cap,
    {
        self.max_level_cap
    }

    /// The dimension of the vectors.
    pub fn dim(&self) -> (r: usize)
        ensures
            r == self.dim,
    {
        self.dim
    }

    /// Sets the size of the candidate list of an insertion.
    pub fn set_ef_construct(&mut self, ef: usize)
        ensures
            *final(self) == (HNSWIndex { ef_construct: ef, ..*old(self) }),
    {
        self.ef_construct = ef;
    }

    /// Sets the size of the candidate list of a search.
    pub fn set_ef_search(&mut self, ef: usize)
        ensures
            *final(self) == (HNSWIndex { ef, ..*old(self) }),
    {
        self.ef = ef;
    }

    /// Sets the neighbours that a node gets in the lowest layer, at least one; it
    /// keeps no fewer.
    pub fn set_m0(&mut self, m0: usize)
        ensures
            ({
                let new = if m0 > 1 {
                    m0
                } else {
                    1usize
                };
                *final(self) == (HNSWIndex {
                    m0: new,
                    stored_cap_l0: if old(self).stored_cap_l0 < new {
                        new
                    } else {
                        old(self).stored_cap_l0
                    },
                    ..*old(self)
                })
            }),
    {
        self.m0 = if m0 > 1 {
            m0
        } else {
            1
        };
        if self.stored_cap_l0 < self.m0 {
            self.stored_cap_l0 = self.m0;
        }
    }

    /// Sets the neighbours that a node keeps in the lowest layer: no fewer than it
    /// gets there, and at least one.
    pub fn set_stored_cap_l0(&mut self, cap: usize)
        ensures
            ({
                let floor = if old(self).m0 > 1 {
                    old(self).m0
                } else {
                    1usize
                };
                *final(self) == (HNSWIndex {
                    stored_cap_l0: if cap > floor {
                        cap
                    } else {
                        floor
                    },
                    ..*old(self)
                })
            }),
    {
        let floor: usize = if self.m0 > 1 {
            self.m0
        } else {
            1
        };
        self.stored_cap_l0 = if cap > floor {
            cap
        } else {
            floor
        };
    }

    /// Whether a small result set is completed by a full scan.
    pub fn set_exact_fallback_enabled(&mut self, enabled: bool)
        ensures
            *final(self) == (HNSWIndex { exact_fallback_enabled: enabled, ..*old(self) }),
    {
        self.exact_fallback_enabled = enabled;
    }

    /// Below how many points a full scan is made.
    pub fn set_exact_fallback_threshold(&mut self, threshold: usize)
        ensures
            *final(self) == (HNSWIndex { exact_fallback_threshold: threshold, ..*old(self) }),
    {
        self.exact_fallback_threshold = threshold;
    }

    /// The point of the entry point.
    pub fn get_entry_point(&self) -> (r: Option<u64>)
        requires
            self.wf(),
        ensures
            r is Some <==> self.entry() is Some,
            r matches Some(id) ==> id == self.ids@[self.entry()->0],
    {
        match self.entry_point() {
            Some(idx) => Some(self.point_id(idx)),
            None => None,
        }
    }

    /// Makes the node of a point the entry point, if there is one.
    pub fn set_entry_point(&mut self, point_id: PointId)
        requires
            old(self).wf(),
        ensures
            final(self).wf(),
            match old(self).node_of(point_id) {
                Some(idx) => *final(self) == (HNSWIndex {
                    entry_level_ep: packed_ep(idx, old(self).top_level()) as u64,
                    ..*old(self)
                }) && final(self).entry() == Some(idx),
                None => *final(self) == *old(self),
            },
    {
        if let Some(idx) = self.idx_of(point_id) {
            let (_, level): (Option<usize>, usize) = self.entry_level();
            self.store_entry_level(idx, level);
        }
    }

    /// Sets the highest level, up to the cap.
    pub fn set_current_max_level(&mut self, level: usize)
        requires
            old(self).wf(),
        ensures
            final(self).wf(),
            final(self).entry() == old(self).entry(),
            final(self).top_level() == if level < old(self).max_level_cap {
                level as int
            } else {
                old(self).max_level_cap as int
            },
            *final(self) == (HNSWIndex { entry_level_ep: final(self).entry_level_ep, ..*old(self) }),
    {
        let capped: usize = self.clamp_level(level);
        match self.entry_point() {
            Some(idx) => {
                proof {
                    law_unpack_of_pack(idx as int, capped as int);
                }
                self.entry_level_ep = pack_ep(idx, capped);
            },
            None => {
                proof {
                    law_unpack_of_pack(NO_EP as int, capped as int);
                }
                self.entry_level_ep = pack_ep(NO_EP as usize, capped);
            },
        }
    }

    /// Refuses a vector of another dimension.
    pub fn validate_dim(&self, vec: &[Score]) -> (r: Result<(), DBError>)
        ensures
            vec@.len() == self.dim ==> r is Ok,
            vec@.len() != self.dim ==> r == Err::<(), DBError>(
                DBError::VectorLengthMismatch { expected: self.dim, actual: vec@.len() as usize },
            ),
    {
        if vec.len() != self.dim {
            return Err(DBError::VectorLengthMismatch { expected: self.dim, actual: vec.len() });
        }
        Ok(())
    }
}

/// Whether a node is the last of the present ones with the highest level.
pub open spec fn is_highest(levels: Seq<u8>, deleted: Seq<bool>, at: int) -> bool {
    &&& 0 <= at < levels.len()
    &&& !deleted[at]
    &&& forall|i: int| 0 <= i < levels.len() && !#[trigger] deleted[i] ==> levels[i] <= levels[at]
    &&& forall|i: int| at < i < levels.len() && !#[trigger] deleted[i] ==> levels[i] < levels[at]
}

impl HNSWIndex {
    /// The last of the present nodes with the highest level.
    pub fn find_highest_level_entry_point(&self) -> (r: Option<usize>)
        requires
            self.wf(),
        ensures
            match r {
                Some(at) => is_highest(self.levels@, self.deleted@, at as int),
                None => forall|i: int| 0 <= i < self.nodes() ==> #[trigger] self.deleted@[i],
            },
    {
        let n: usize = self.len();
        let mut best: Option<usize> = None;
        let mut best_level: u8 = 0;
        let mut idx: usize = 0;
        while idx < n
            invariant
                self.wf(),
                n == self.nodes(),
                idx <= n,
                match best {
                    Some(at) => {
                        &&& at < idx
                        &&& !self.deleted@[at as int]
                        &&& best_level == self.levels@[at as int]
                        &&& forall|i: int|
                            0 <= i < idx && !#[trigger] self.deleted@[i] ==> self.levels@[i] <= best_level
                        &&& forall|i: int| at < i < idx && !#[trigger] self.deleted@[i] ==> self.levels@[i] < best_level
                    },
                    None => forall|i: int| 0 <= i < idx ==> #[trigger] self.deleted@[i],
                },
            decreases n - idx,
        {
            if !self.deleted[idx] {
                let level: u8 = self.levels[idx];
                if best.is_none() || level >= best_level {
                    best = Some(idx);
                    best_level = level;
                }
            }
            idx += 1;
        }
        best
    }

    /// Deletes a point. Where its node was the entry point, the last of the
    /// remaining nodes with the highest level takes its place.
    pub fn mark_deleted(&mut self, point_id: PointId)
        requires
            old(self).wf(),
        ensures
            final(self).wf(),
            match old(self).node_of(point_id) {
                None => *final(self) == *old(self),
                Some(idx) => {
                    &&& final(self).deleted@ == old(self).deleted@.update(idx, true)
                    &&& final(self).deleted_count == old(self).deleted_count + if old(self).deleted@[idx] {
                        0int
                    } else {
                        1int
                    }
                    &&& final(self).node_state@ == old(self).node_state@.update(idx, NODE_DELETED)
                    &&& *final(self) == (HNSWIndex {
                        deleted: final(self).deleted,
                        deleted_count: final(self).deleted_count,
                        node_state: final(self).node_state,
                        entry_level_ep: final(self).entry_level_ep,
                        ..*old(self)
                    })
                    &&& old(self).entry() != Some(idx) ==> final(self).entry_level_ep == old(self).entry_level_ep
                    &&& old(self).entry() == Some(idx) ==> match final(self).entry() {
                        Some(e) => is_highest(final(self).levels@, final(self).deleted@, e) && final(self).top_level()
                            == final(self).levels@[e],
                        None => final(self).top_level() == 0 && forall|i: int|
                            0 <= i < final(self).nodes() ==> #[trigger] final(self).deleted@[i],
                    }
                },
            },
    {
        let idx: usize = match self.idx_of(point_id) {
            Some(idx) => idx,
            None => {
                return ;
            },
        };
        if !self.deleted[idx] {
            proof {
                lemma_flag_count_set(self.deleted@, idx as int);
            }
            self.deleted.set(idx, true);
            self.deleted_count = self.deleted_count + 1;
        } else {
            assert(self.deleted@.update(idx as int, true) =~= self.deleted@);
        }
        self.node_state.set(idx, NODE_DELETED);
        assert(self.wf());
        if let Some(ep) = self.entry_point() {
            if ep == idx {
                match self.find_highest_level_entry_point() {
                    Some(next) => {
                        let level: usize = self.levels[next] as usize;
                        self.store_entry_level(next, level);
                    },
                    None => {
                        proof {
                            law_unpack_of_pack(NO_EP as int, 0);
                        }
                        self.entry_level_ep = pack_ep(NO_EP as usize, 0);
                    },
                }
            }
        }
    }
}

} // verus!
