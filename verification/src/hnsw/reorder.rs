//! A graph under another numbering of its nodes.

use vstd::prelude::*;
use std::collections::HashMap;
use crate::hnsw::arena::VectorArena;
use crate::hnsw::graph;
use crate::hnsw::graph::{AllocState, HNSWIndex, CHUNK_CAP};
use crate::hnsw::rcm;
use crate::hnsw::types::PointId;
use crate::score::Score;

verus! {

broadcast use vstd::std_specs::hash::group_hash_axioms;

/// The items in an order.
pub open spec fn gathered<T>(items: Seq<T>, order: Seq<usize>) -> Seq<T> {
    Seq::new(order.len(), |k: int| items[order[k] as int])
}

/// The nodes of a list by their places in an order.
pub open spec fn renumbered(list: Seq<usize>, order: Seq<usize>) -> Seq<usize> {
    Seq::new(list.len(), |k: int| rcm::place(order, list[k]) as usize)
}

/// A layer in an order, with its nodes by their places.
pub open spec fn layer_renumbered(layer: Seq<Seq<usize>>, order: Seq<usize>) -> Seq<Seq<usize>> {
    Seq::new(order.len(), |k: int| renumbered(layer[order[k] as int], order))
}

/// Whether `after` is `before` with its nodes in another order: every array is in
/// that order, and every node that one refers to goes by its place in it.
pub open spec fn permuted(before: HNSWIndex, after: HNSWIndex, order: Seq<usize>) -> bool {
    &&& after == (HNSWIndex {
        layers: after.layers,
        vectors: after.vectors,
        levels: after.levels,
        entry_level_ep: after.entry_level_ep,
        deleted: after.deleted,
        edge_dists_l0: after.edge_dists_l0,
        quantized: after.quantized,
        quant_min: after.quant_min,
        quant_scale: after.quant_scale,
        node_state: after.node_state,
        ids: after.ids,
        alloc: after.alloc,
        ..before
    })
    &&& after.quantized@.len() == 0
    &&& after.quant_min@.len() == 0
    &&& after.quant_scale@.len() == 0
    &&& after.vectors.vectors() == gathered(before.vectors.vectors(), order)
    &&& after.levels@ == gathered(before.levels@, order)
    &&& after.deleted@ == gathered(before.deleted@, order)
    &&& after.node_state@ == gathered(before.node_state@, order)
    &&& after.ids@ == gathered(before.ids@, order)
    &&& after.dists() == gathered(before.dists(), order)
    &&& after.layers@.len() == before.layers@.len()
    &&& forall|l: int|
        0 <= l < before.layers@.len() ==> #[trigger] after.links()[l] == layer_renumbered(before.links()[l], order)
    &&& after.entry() == match before.entry() {
        Some(e) => Some(rcm::place(order, e as usize)),
        None => None,
    }
    &&& after.top_level() == before.top_level()
}

/// The items in an order.
fn gather<T: Copy>(items: &Vec<T>, order: &Vec<usize>) -> (r: Vec<T>)
    requires
        rcm::is_order(order@, items@.len()),
    ensures
        r@ == gathered(items@, order@),
{
    let mut out: Vec<T> = Vec::with_capacity(order.len());
    let mut k: usize = 0;
    while k < order.len()
        invariant
            k <= order@.len(),
            rcm::is_order(order@, items@.len()),
            out@ == gathered(items@, order@).take(k as int),
        decreases order@.len() - k,
    {
        out.push(items[order[k]]);
        k += 1;
    }
    assert(out@ =~= gathered(items@, order@));
    out
}

/// The place of each node in an order.
fn places(order: &Vec<usize>) -> (r: Vec<usize>)
    requires
        rcm::is_order(order@, order@.len()),
    ensures
        r@.len() == order@.len(),
        forall|x: int|
            0 <= x < r@.len() ==> #[trigger] r@[x] == rcm::place(order@, x as usize) && r@[x] < order@.len(),
{
    let n: usize = order.len();
    let mut out: Vec<usize> = Vec::with_capacity(n);
    let mut k: usize = 0;
    while k < n
        invariant
            k <= n,
            out@.len() == k,
        decreases n - k,
    {
        out.push(0);
        k += 1;
    }
    let mut k: usize = 0;
    while k < n
        invariant
            k <= n,
            n == order@.len(),
            rcm::is_order(order@, n as nat),
            out@.len() == n,
            forall|j: int| 0 <= j < k ==> out@[#[trigger] order@[j] as int] == j,
        decreases n - k,
    {
        out.set(order[k], k);
        k += 1;
    }
    assert forall|x: int| 0 <= x < n implies #[trigger] out@[x] == rcm::place(order@, x as usize) && out@[x] < n by {
        rcm::law_place(order@, n as nat, x as usize);
        let j = rcm::place(order@, x as usize);
        assert(order@[j] == x);
        assert(out@[order@[j] as int] == j);
    }
    out
}

/// A layer in an order, with its nodes by their places.
fn renumber_layer(layer: &Vec<Vec<usize>>, order: &Vec<usize>, place: &Vec<usize>) -> (r: Vec<Vec<usize>>)
    requires
        rcm::is_order(order@, layer@.len()),
        place@.len() == layer@.len(),
        forall|x: int| 0 <= x < place@.len() ==> #[trigger] place@[x] == rcm::place(order@, x as usize),
        forall|u: int| 0 <= u < layer@.len() ==> rcm::within((#[trigger] layer@[u])@, layer@.len()),
    ensures
        r@.len() == layer@.len(),
        rcm::lists_of(r@) == layer_renumbered(rcm::lists_of(layer@), order@),
{
    let ghost n = layer@.len();
    let ghost goal = layer_renumbered(rcm::lists_of(layer@), order@);
    let mut out: Vec<Vec<usize>> = Vec::with_capacity(order.len());
    let mut k: usize = 0;
    while k < order.len()
        invariant
            k <= order@.len(),
            n == layer@.len(),
            rcm::is_order(order@, n),
            place@.len() == n,
            forall|x: int| 0 <= x < place@.len() ==> #[trigger] place@[x] == rcm::place(order@, x as usize),
            forall|u: int| 0 <= u < layer@.len() ==> rcm::within((#[trigger] layer@[u])@, n),
            goal == layer_renumbered(rcm::lists_of(layer@), order@),
            out@.len() == k,
            forall|j: int| 0 <= j < k ==> (#[trigger] out@[j])@ == goal[j],
        decreases order@.len() - k,
    {
        let list: &Vec<usize> = &layer[order[k]];
        assert(rcm::within(layer@[order@[k as int] as int]@, n));
        let mut mapped: Vec<usize> = Vec::with_capacity(list.len());
        let mut j: usize = 0;
        while j < list.len()
            invariant
                j <= list@.len(),
                rcm::within(list@, n),
                place@.len() == n,
                forall|x: int| 0 <= x < place@.len() ==> #[trigger] place@[x] == rcm::place(order@, x as usize),
                mapped@ == renumbered(list@, order@).take(j as int),
            decreases list@.len() - j,
        {
            mapped.push(place[list[j]]);
            j += 1;
        }
        assert(mapped@ =~= renumbered(list@, order@));
        assert(rcm::lists_of(layer@)[order@[k as int] as int] == list@);
        out.push(mapped);
        k += 1;
    }
    assert(rcm::lists_of(out@) =~= goal);
    out
}

/// Rows in an order.
fn gather_rows(rows: &Vec<Vec<Score>>, order: &Vec<usize>) -> (r: Vec<Vec<Score>>)
    requires
        rcm::is_order(order@, rows@.len()),
    ensures
        r@.len() == rows@.len(),
        crate::arith::rows(r@) == gathered(crate::arith::rows(rows@), order@),
{
    let ghost goal = gathered(crate::arith::rows(rows@), order@);
    let mut out: Vec<Vec<Score>> = Vec::with_capacity(order.len());
    let mut k: usize = 0;
    while k < order.len()
        invariant
            k <= order@.len(),
            rcm::is_order(order@, rows@.len()),
            goal == gathered(crate::arith::rows(rows@), order@),
            out@.len() == k,
            forall|j: int| 0 <= j < k ==> (#[trigger] out@[j])@ == goal[j],
        decreases order@.len() - k,
    {
        let row: Vec<Score> = rows[order[k]].clone();
        assert(row@ =~= rows@[order@[k as int] as int]@);
        out.push(row);
        k += 1;
    }
    assert(crate::arith::rows(out@) =~= goal);
    out
}

/// The nodes by the ids of their points.
pub(crate) fn allocation(ids: &Vec<PointId>) -> (r: AllocState)
    requires
        ids@.no_duplicates(),
    ensures
        r.wf(),
        r.idx_to_point@ == ids@,
{
    let mut point_to_idx: HashMap<PointId, usize> = HashMap::new();
    let mut k: usize = 0;
    while k < ids.len()
        invariant
            k <= ids@.len(),
            ids@.no_duplicates(),
            forall|i: int|
                0 <= i < k ==> point_to_idx@.dom().contains(#[trigger] ids@[i]) && point_to_idx@[ids@[i]] == i,
            forall|id: PointId| #[trigger]
                point_to_idx@.dom().contains(id) ==> point_to_idx@[id] < k && ids@[point_to_idx@[id] as int] == id,
        decreases ids@.len() - k,
    {
        point_to_idx.insert(ids[k], k);
        k += 1;
    }
    let idx_to_point: Vec<PointId> = ids.clone();
    assert(idx_to_point@ =~= ids@);
    AllocState { point_to_idx, idx_to_point, node_count: ids.len() }
}

/// A reordering keeps the number of flags.
proof fn lemma_flags_gathered(flags: Seq<bool>, order: Seq<usize>)
    requires
        order.no_duplicates(),
        forall|k: int| 0 <= k < order.len() ==> (#[trigger] order[k]) < flags.len(),
        forall|x: int| 0 <= x < flags.len() && #[trigger] flags[x] ==> order.contains(x as usize),
        flags.len() <= usize::MAX,
    ensures
        graph::flag_count(gathered(flags, order)) == graph::flag_count(flags),
    decreases order.len(),
{
    if order.len() == 0 {
        assert forall|x: int| 0 <= x < flags.len() implies !#[trigger] flags[x] by {
            if flags[x] {
                assert(order.contains(x as usize));
            }
        }
        rcm::lemma_no_flags(flags);
        rcm::lemma_no_flags(gathered(flags, order));
    } else {
        let rest = order.drop_last();
        let x = order.last() as int;
        assert(order[order.len() - 1] < flags.len());
        let cleared = flags.update(x, false);
        assert forall|k: int| 0 <= k < rest.len() implies (#[trigger] rest[k]) < cleared.len() && rest[k] != x by {
            assert(order[k] < flags.len());
            assert(order[k] != order[order.len() - 1]);
        }
        assert forall|y: int| 0 <= y < cleared.len() && #[trigger] cleared[y] implies rest.contains(y as usize) by {
            assert(flags[y]);
            assert(order.contains(y as usize));
            let k = choose|k: int| 0 <= k < order.len() && order[k] == y as usize;
            assert(rest[k] == y as usize);
        }
        lemma_flags_gathered(cleared, rest);
        assert(gathered(flags, order).drop_last() =~= gathered(cleared, rest));
        if flags[x] {
            graph::lemma_flag_count_set(cleared, x);
            assert(cleared.update(x, true) =~= flags);
        } else {
            assert(cleared =~= flags);
        }
    }
}

impl HNSWIndex {
    /// Renumbers the nodes in reverse Cuthill-McKee order, so that neighbours in
    /// the lowest layer stand close to each other. Quantised vectors are dropped.
    pub fn reorder_rcm(&mut self)
        requires
            old(self).wf(),
        ensures
            final(self).wf(),
            old(self).nodes() == 0 ==> *final(self) == (HNSWIndex {
                quantized: final(self).quantized,
                quant_min: final(self).quant_min,
                quant_scale: final(self).quant_scale,
                ..*old(self)
            }),
            final(self).quantized@.len() == 0,
            final(self).quant_min@.len() == 0,
            final(self).quant_scale@.len() == 0,
            old(self).nodes() > 0 ==> permuted(
                *old(self),
                *final(self),
                rcm::rcm_order(old(self).links()[0], old(self).nodes()),
            ) && rcm::is_order(rcm::rcm_order(old(self).links()[0], old(self).nodes()), old(self).nodes()),
    {
        let ghost before = *self;
        self.quantized = Vec::new();
        self.quant_min = Vec::new();
        self.quant_scale = Vec::new();
        let n: usize = self.len();
        if n == 0 {
            return ;
        }
        assert(self.links() == before.links());
        let order: Vec<usize> = self.rcm_permutation();
        let place: Vec<usize> = places(&order);
        let mut vectors: VectorArena = VectorArena::new(self.vector_dimension(), CHUNK_CAP);
        let ghost all = gathered(before.vectors.vectors(), order@);
        let mut k: usize = 0;
        while k < n
            invariant
                k <= n,
                n == self.nodes(),
                self.wf(),
                rcm::is_order(order@, n as nat),
                vectors.wf(),
                vectors.dimension() == self.dim,
                self.vectors.vectors() == before.vectors.vectors(),
                all == gathered(before.vectors.vectors(), order@),
                vectors.vectors() == all.take(k as int),
            decreases n - k,
        {
            vectors.push(self.vectors.get_direct(order[k]));
            assert(all.take(k + 1) =~= all.take(k as int).push(all[k as int]));
            k += 1;
        }
        assert(all.take(k as int) =~= all);
        let deleted: Vec<bool> = gather(&self.deleted, &order);
        let levels: Vec<u8> = gather(&self.levels, &order);
        let node_state: Vec<u8> = gather(&self.node_state, &order);
        let ids: Vec<PointId> = gather(&self.ids, &order);
        proof {
            assert forall|i: int, j: int| 0 <= i < ids@.len() && 0 <= j < ids@.len() && i != j implies ids@[i]
                != ids@[j] by {
                assert(order@[i] != order@[j]);
                assert(before.ids@[order@[i] as int] != before.ids@[order@[j] as int]);
            }
            assert forall|x: int| 0 <= x < before.deleted@.len() && #[trigger] before.deleted@[x] implies
                order@.contains(x as usize) by {}
            lemma_flags_gathered(before.deleted@, order@);
        }
        let alloc: AllocState = allocation(&ids);
        let edge_dists_l0: Vec<Vec<Score>> = gather_rows(&self.edge_dists_l0, &order);
        let mut layers: Vec<Vec<Vec<usize>>> = Vec::with_capacity(self.layers.len());
        let mut l: usize = 0;
        while l < self.layers.len()
            invariant
                l <= self.layers@.len(),
                n == self.nodes(),
                self.wf(),
                self.links() == before.links(),
                self.layers@ == before.layers@,
                rcm::is_order(order@, n as nat),
                place@.len() == n,
                forall|x: int| 0 <= x < place@.len() ==> #[trigger] place@[x] == rcm::place(order@, x as usize),
                layers@.len() == l,
                forall|j: int|
                    0 <= j < l ==> (#[trigger] layers@[j])@.len() == n && rcm::lists_of(layers@[j]@)
                        == layer_renumbered(before.links()[j], order@),
            decreases self.layers@.len() - l,
        {
            let layer: &Vec<Vec<usize>> = &self.layers[l];
            assert(self.layers@[l as int]@.len() == n);
            assert forall|u: int| 0 <= u < layer@.len() implies rcm::within((#[trigger] layer@[u])@, layer@.len()) by {
                assert forall|k: int| 0 <= k < layer@[u]@.len() implies (#[trigger] layer@[u]@[k]) < n by {
                    assert(self.links()[l as int][u][k] < n);
                }
            }
            assert(rcm::lists_of(layer@) =~= self.links()[l as int]);
            layers.push(renumber_layer(layer, &order, &place));
            l += 1;
        }
        let ep: u64 = match self.entry_level() {
            (Some(e), level) => {
                proof {
                    graph::law_unpack_of_pack(place@[e as int] as int, level as int);
                }
                graph::pack_ep(place[e], level)
            },
            (None, _) => self.entry_level_ep,
        };
        self.vectors = vectors;
        self.deleted = deleted;
        self.levels = levels;
        self.node_state = node_state;
        self.ids = ids;
        self.alloc = alloc;
        self.edge_dists_l0 = edge_dists_l0;
        self.layers = layers;
        self.entry_level_ep = ep;
        proof {
            assert forall|l: int| 0 <= l < self.layers@.len() implies #[trigger] self.links()[l] == layer_renumbered(
                before.links()[l],
                order@,
            ) by {
                assert(self.links()[l] =~= rcm::lists_of(self.layers@[l]@));
            }
            assert(self.dists() =~= gathered(before.dists(), order@));
            let links = self.links();
            assert forall|l: int, i: int, k: int|
                0 <= l < links.len() && 0 <= i < links[l].len() && 0 <= k < links[l][i].len() implies (
            #[trigger] links[l][i][k]) < self.nodes() by {
                assert(links[l] == layer_renumbered(before.links()[l], order@));
                let list = before.links()[l][order@[i] as int];
                assert(before.layers@[l]@.len() == n);
                assert(links[l][i] == renumbered(list, order@));
                assert(before.links()[l][order@[i] as int][k] < n);
                rcm::law_place(order@, n as nat, list[k]);
            }
        }
    }

    /// The dimension of the vectors, which is not zero.
    fn vector_dimension(&self) -> (r: usize)
        requires
            self.wf(),
        ensures
            r == self.dim,
            r > 0,
    {
        proof {
            self.vectors.lemma_dimensions();
        }
        self.dim
    }
}

/// The points of the nodes of a list.
pub open spec fn points_of(ids: Seq<PointId>, list: Seq<usize>) -> Seq<PointId> {
    Seq::new(list.len(), |k: int| ids[list[k] as int])
}

/// Renumbering the nodes changes nothing about the points: each keeps its vector,
/// its level, its state and its flag, its neighbours in every layer in their order
/// with their scores, and the entry point stays the same point.
pub proof fn law_reordering_keeps_the_points(before: HNSWIndex, after: HNSWIndex, order: Seq<usize>, id: PointId)
    requires
        before.wf(),
        after.wf(),
        rcm::is_order(order, before.nodes()),
        permuted(before, after, order),
        before.node_of(id) is Some,
    ensures
        ({
            let old_node = before.node_of(id)->0;
            let node = after.node_of(id)->0;
            &&& after.node_of(id) is Some
            &&& after.vectors.vectors()[node] == before.vectors.vectors()[old_node]
            &&& after.levels@[node] == before.levels@[old_node]
            &&& after.node_state@[node] == before.node_state@[old_node]
            &&& after.deleted@[node] == before.deleted@[old_node]
            &&& after.dists()[node] == before.dists()[old_node]
            &&& forall|l: int|
                0 <= l < before.layers@.len() ==> points_of(after.ids@, #[trigger] after.links()[l][node]) == points_of(
                    before.ids@,
                    before.links()[l][old_node],
                )
            &&& (before.entry() == Some(old_node) <==> after.entry() == Some(node))
        }),
{
    let n = before.nodes();
    let old_node = before.alloc.point_to_idx@[id] as int;
    assert(before.ids@[old_node] == id);
    let node = rcm::place(order, old_node as usize);
    rcm::law_place(order, n, old_node as usize);
    assert(after.ids@[node] == id);
    assert(after.alloc.idx_to_point@[node] == id);
    assert(after.node_of(id) == Some(node));
    assert(before.edge_dists_l0@.len() == n);
    assert forall|l: int| 0 <= l < before.layers@.len() implies points_of(
        after.ids@,
        #[trigger] after.links()[l][node],
    ) == points_of(before.ids@, before.links()[l][old_node]) by {
        assert(after.links()[l] == layer_renumbered(before.links()[l], order));
        assert(before.layers@[l]@.len() == n);
        let list = before.links()[l][old_node];
        let new = after.links()[l][node];
        assert(new == renumbered(list, order));
        assert forall|k: int| 0 <= k < list.len() implies points_of(after.ids@, new)[k] == points_of(
            before.ids@,
            list,
        )[k] by {
            assert(before.links()[l][old_node][k] < n);
            rcm::law_place(order, n, list[k]);
        }
        assert(points_of(after.ids@, new) =~= points_of(before.ids@, list));
    }
    if let Some(e) = before.entry() {
        rcm::law_place(order, n, e as usize);
    }
}

} // verus!
