//! What storing a graph and restoring it gives back.

use vstd::prelude::*;
use crate::hnsw::graph::HNSWIndex;
use crate::hnsw::reorder;
use crate::hnsw::snapshot;
use crate::hnsw::snapshot::HnswSnapshot;
use crate::hnsw::types::PointId;
use crate::score::Score;

verus! {

proof fn lemma_list_in(ids: Seq<PointId>, layer: Seq<Seq<usize>>, upto: nat, i: int)
    requires
        ids.no_duplicates(),
        upto <= ids.len(),
        0 <= i < ids.len(),
    ensures
        snapshot::list_in(snapshot::stored_layer(ids, layer, upto), ids[i]) == if i < upto && layer[i].len() > 0 {
            Some(reorder::points_of(ids, layer[i]))
        } else {
            None
        },
    decreases upto,
{
    if upto > 0 {
        let k = (upto - 1) as nat;
        lemma_list_in(ids, layer, k, i);
        let before = snapshot::stored_layer(ids, layer, k);
        let out = snapshot::stored_layer(ids, layer, upto);
        if layer[k as int].len() > 0 {
            assert(out.drop_last() =~= before);
            assert(out.last().0 == ids[k as int]);
            if i != k {
                assert(ids[i] != ids[k as int]);
            }
        }
    }
}

proof fn lemma_list_at(ids: Seq<PointId>, links: Seq<Seq<Seq<usize>>>, upto: nat, l: int, i: int)
    requires
        ids.no_duplicates(),
        upto <= links.len() <= usize::MAX,
        0 <= i < ids.len(),
        0 <= l,
    ensures
        snapshot::list_at(snapshot::stored_layers(ids, links, upto), l, ids[i]) == if l < upto && links[l][i].len()
            > 0 {
            reorder::points_of(ids, links[l][i])
        } else {
            Seq::<PointId>::empty()
        },
        l < upto && links[l][i].len() > 0 ==> l <= snapshot::top_layer(snapshot::stored_layers(ids, links, upto)),
        0 <= snapshot::top_layer(snapshot::stored_layers(ids, links, upto)),
        upto > 0 ==> snapshot::top_layer(snapshot::stored_layers(ids, links, upto)) < upto,
    decreases upto,
{
    if upto > 0 {
        let k = (upto - 1) as nat;
        lemma_list_at(ids, links, k, l, i);
        lemma_list_in(ids, links[k as int], ids.len(), i);
        let layer = snapshot::stored_layer(ids, links[k as int], ids.len());
        let before = snapshot::stored_layers(ids, links, k);
        let out = snapshot::stored_layers(ids, links, upto);
        if layer.len() > 0 {
            assert(out.drop_last() =~= before);
            assert(out.last() == (k as usize, layer));
        }
    }
}

proof fn lemma_top_layer_bound(ids: Seq<PointId>, links: Seq<Seq<Seq<usize>>>, upto: nat)
    requires
        upto <= links.len() <= usize::MAX,
    ensures
        0 <= snapshot::top_layer(snapshot::stored_layers(ids, links, upto)),
        upto > 0 ==> snapshot::top_layer(snapshot::stored_layers(ids, links, upto)) < upto,
        upto == 0 ==> snapshot::top_layer(snapshot::stored_layers(ids, links, upto)) == 0,
    decreases upto,
{
    if upto > 0 {
        let k = (upto - 1) as nat;
        lemma_top_layer_bound(ids, links, k);
        let layer = snapshot::stored_layer(ids, links[k as int], ids.len());
        let before = snapshot::stored_layers(ids, links, k);
        let out = snapshot::stored_layers(ids, links, upto);
        if layer.len() > 0 {
            assert(out.drop_last() =~= before);
        }
    }
}

proof fn lemma_known_all(index: HNSWIndex, list: Seq<PointId>)
    requires
        index.wf(),
        forall|k: int| 0 <= k < list.len() ==> index.alloc.point_to_idx@.dom().contains(#[trigger] list[k]),
    ensures
        reorder::points_of(index.ids@, snapshot::known(index.alloc.point_to_idx@, list)) == list,
    decreases list.len(),
{
    let nodes = snapshot::known(index.alloc.point_to_idx@, list);
    if list.len() > 0 {
        let rest = list.drop_last();
        assert forall|k: int| 0 <= k < rest.len() implies index.alloc.point_to_idx@.dom().contains(
            #[trigger] rest[k],
        ) by {
            assert(index.alloc.point_to_idx@.dom().contains(list[k]));
        }
        lemma_known_all(index, rest);
        assert(index.alloc.point_to_idx@.dom().contains(list[list.len() - 1]));
        let before = snapshot::known(index.alloc.point_to_idx@, rest);
        assert(nodes == before.push(index.alloc.point_to_idx@[list.last()]));
        assert(reorder::points_of(index.ids@, nodes) =~= reorder::points_of(index.ids@, before).push(list.last()));
        assert(rest.push(list.last()) =~= list);
    } else {
        assert(reorder::points_of(index.ids@, nodes) =~= list);
    }
}

proof fn lemma_level_of(ids: Seq<PointId>, levels: Seq<u8>, n: nat, i: int)
    requires
        ids.no_duplicates(),
        n <= ids.len(),
        levels.len() == ids.len(),
        0 <= i < n,
    ensures
        snapshot::level_of(Seq::new(n, |i: int| (ids[i], levels[i] as usize)), ids[i]) == levels[i],
    decreases n,
{
    let all = Seq::new(n, |i: int| (ids[i], levels[i] as usize));
    if i < n - 1 {
        lemma_level_of(ids, levels, (n - 1) as nat, i);
        assert(all.drop_last() =~= Seq::new((n - 1) as nat, |i: int| (ids[i], levels[i] as usize)));
        assert(ids[i] != ids[n - 1]);
    }
}

proof fn lemma_deleted(ids: Seq<PointId>, deleted: Seq<bool>, upto: nat, i: int)
    requires
        ids.no_duplicates(),
        deleted.len() == ids.len(),
        upto <= ids.len(),
        0 <= i < ids.len(),
    ensures
        snapshot::stored_deleted(ids, deleted, upto).contains(ids[i]) <==> i < upto && deleted[i],
    decreases upto,
{
    if upto > 0 {
        let k = (upto - 1) as nat;
        lemma_deleted(ids, deleted, k, i);
        let before = snapshot::stored_deleted(ids, deleted, k);
        let out = snapshot::stored_deleted(ids, deleted, upto);
        if deleted[k as int] {
            if before.contains(ids[i]) {
                let j = choose|j: int| 0 <= j < before.len() && before[j] == ids[i];
                assert(out[j] == ids[i]);
            }
            if i == k {
                assert(out[before.len() as int] == ids[i]);
            }
            if out.contains(ids[i]) && i != k {
                let j = choose|j: int| 0 <= j < out.len() && out[j] == ids[i];
                assert(ids[i] != ids[k as int]);
                assert(before[j] == ids[i]);
            }
        }
    }
}

/// What is stored of a graph can be restored.
pub proof fn law_snapshots_are_restorable(index: HNSWIndex, stored: HnswSnapshot)
    requires
        index.wf(),
        snapshot::is_snapshot(index, stored),
    ensures
        snapshot::restorable(stored),
{
    index.vectors.lemma_dimensions();
    let vectors = snapshot::vectors_view(stored.vectors@);
    assert(vectors.len() == stored.vectors@.len());
    assert forall|k: int| 0 <= k < stored.vectors@.len() implies (#[trigger] stored.vectors@[k]).1@.len()
        == stored.dim by {
        assert(vectors[k] == (stored.vectors@[k].0, stored.vectors@[k].1@));
    }
    assert forall|j: int, k: int| 0 <= j < k < stored.vectors@.len() implies (#[trigger] stored.vectors@[j]).0 != (
    #[trigger] stored.vectors@[k]).0 by {
        assert(vectors[j].0 == index.ids@[j]);
        assert(vectors[k].0 == index.ids@[k]);
        assert(index.alloc.idx_to_point@[j] != index.alloc.idx_to_point@[k]);
    }
    assert(index.layers.len() == index.layers@.len());
    lemma_top_layer_bound(index.ids@, index.links(), index.layers@.len());
}

/// Storing a graph and restoring it keeps every point: its vector, its level and
/// whether it is deleted, and its neighbours in every layer in their order; a
/// layer that is not restored held no neighbours. The entry point, the highest
/// level and the settings stay the same as well.
pub proof fn law_restoring_gives_back_the_points(
    before: HNSWIndex,
    stored: HnswSnapshot,
    after: HNSWIndex,
    enabled: Option<bool>,
    threshold: Option<usize>,
    id: PointId,
)
    requires
        before.wf(),
        after.wf(),
        snapshot::is_snapshot(before, stored),
        snapshot::is_restored(stored, after, enabled, threshold),
    ensures
        after.nodes() == before.nodes(),
        before.node_of(id) is Some <==> after.node_of(id) is Some,
        before.node_of(id) matches Some(old_node) ==> {
            let node = after.node_of(id)->0;
            &&& after.vectors.vectors()[node] == before.vectors.vectors()[old_node]
            &&& after.levels@[node] == before.levels@[old_node]
            &&& after.deleted@[node] == before.deleted@[old_node]
            &&& (before.entry() == Some(old_node) <==> after.entry() == Some(node))
            &&& forall|l: int|
                #![trigger before.links()[l][old_node]]
                0 <= l < before.layers@.len() ==> if l < after.layers@.len() {
                    reorder::points_of(after.ids@, after.links()[l][node]) == reorder::points_of(
                        before.ids@,
                        before.links()[l][old_node],
                    )
                } else {
                    before.links()[l][old_node].len() == 0
                }
        },
        after.top_level() == before.top_level(),
        after.metric == before.metric,
        after.m == before.m,
        after.m0 == before.m0,
        after.stored_cap_l0 == before.stored_cap_l0,
        after.ef == before.ef,
        after.ef_construct == before.ef_construct,
        after.max_level_cap == before.max_level_cap,
        after.level_scale == before.level_scale,
        after.dim == before.dim,
{
    let n = before.nodes();
    let vectors = snapshot::vectors_view(stored.vectors@);
    assert(vectors.len() == stored.vectors@.len());
    assert forall|k: int| 0 <= k < n implies vectors[k].0 == (#[trigger] before.ids@[k]) && after.ids@.contains(
        before.ids@[k],
    ) by {
        assert(vectors[k] == (stored.vectors@[k].0, stored.vectors@[k].1@));
        assert(after.ids@.contains(stored.vectors@[k].0));
    }
    assert forall|p: PointId| before.node_of(p) is Some <==> #[trigger] after.node_of(p) is Some by {
        if before.node_of(p) is Some {
            let k = before.alloc.point_to_idx@[p] as int;
            assert(before.ids@[k] == p);
            assert(after.ids@.contains(before.ids@[k]));
            let i = choose|i: int| 0 <= i < after.ids@.len() && after.ids@[i] == p;
            assert(after.alloc.idx_to_point@[i] == p);
        }
        if after.node_of(p) is Some {
            let i = after.alloc.point_to_idx@[p] as int;
            assert(after.ids@[i] == p);
            assert(snapshot::restored_vector(stored, after.ids@[i], after.vectors.vectors()[i]));
            let k = choose|k: int| #[trigger]
                snapshot::vector_at(stored, k, p) && after.vectors.vectors()[i] == stored.vectors@[k].1@;
            assert(before.ids@[k] == p);
            assert(before.alloc.idx_to_point@[k] == p);
        }
    }
    if before.node_of(id) is Some {
        let old_node = before.node_of(id)->0;
        let node = after.node_of(id)->0;
        assert(after.node_of(id) is Some);
        assert(before.ids@[old_node] == id);
        assert(after.ids@[node] == id);
        assert(snapshot::restored_vector(stored, after.ids@[node], after.vectors.vectors()[node]));
        let k = choose|k: int| #[trigger]
            snapshot::vector_at(stored, k, id) && after.vectors.vectors()[node] == stored.vectors@[k].1@;
        assert(vectors[k] == (stored.vectors@[k].0, stored.vectors@[k].1@));
        assert(before.ids@[k] == id);
        assert(before.alloc.idx_to_point@[k] == before.alloc.idx_to_point@[old_node]);
        assert(k == old_node);
        lemma_level_of(before.ids@, before.levels@, n, old_node);
        lemma_deleted(before.ids@, before.deleted@, n, old_node);
        assert(after.levels@[node] == before.levels@[old_node]);
        assert(after.deleted@[node] == before.deleted@[old_node]);
        assert forall|l: int| #![trigger before.links()[l][old_node]] 0 <= l < before.layers@.len() implies if l
            < after.layers@.len() {
            reorder::points_of(after.ids@, after.links()[l][node]) == reorder::points_of(
                before.ids@,
                before.links()[l][old_node],
            )
        } else {
            before.links()[l][old_node].len() == 0
        } by {
            assert(before.layers.len() == before.layers@.len());
            lemma_list_at(before.ids@, before.links(), before.layers@.len(), l, old_node);
            if l < after.layers@.len() {
                let list = snapshot::list_at(snapshot::layers_view(stored.layers@), l, id);
                assert(before.layers@[l]@.len() == n);
                assert(list =~= reorder::points_of(before.ids@, before.links()[l][old_node]));
                assert forall|j: int| 0 <= j < list.len() implies after.alloc.point_to_idx@.dom().contains(
                    #[trigger] list[j],
                ) by {
                    let neighbor = before.links()[l][old_node][j];
                    assert(before.links()[l][old_node][j] < n);
                    assert(before.alloc.idx_to_point@[neighbor as int] == list[j]);
                    assert(before.node_of(list[j]) is Some);
                    assert(after.node_of(list[j]) is Some);
                }
                lemma_known_all(after, list);
                assert(after.links()[l][node] == snapshot::known(after.alloc.point_to_idx@, list));
            }
        }
        if before.entry() is Some {
            let e = before.entry()->0;
            assert(before.alloc.idx_to_point@[e] == before.ids@[e]);
            assert(after.node_of(before.ids@[e]) is Some);
        }
    }
}

/// Whether two snapshots say the same of every point, in whatever order they list the
/// points, and hold the same settings; but for whether small graphs are compared
/// exactly, which is decided anew when a graph is restored.
pub open spec fn say_the_same(a: HnswSnapshot, b: HnswSnapshot) -> bool {
    &&& a.vectors@.len() == b.vectors@.len()
    &&& forall|id: PointId, v: Seq<Score>| #[trigger]
        snapshot::restored_vector(a, id, v) <==> snapshot::restored_vector(b, id, v)
    &&& forall|id: PointId| #[trigger] snapshot::level_of(a.levels@, id) == snapshot::level_of(b.levels@, id)
    &&& forall|id: PointId| #[trigger] a.deleted@.contains(id) <==> b.deleted@.contains(id)
    &&& forall|level: int, id: PointId|
        0 <= level ==> #[trigger] snapshot::list_at(snapshot::layers_view(a.layers@), level, id) == snapshot::list_at(
            snapshot::layers_view(b.layers@),
            level,
            id,
        )
    &&& a.entry_point == b.entry_point
    &&& a.metric == b.metric
    &&& a.m == b.m
    &&& a.m0 == b.m0
    &&& a.stored_cap_l0 == b.stored_cap_l0
    &&& a.ef == b.ef
    &&& a.ef_construct == b.ef_construct
    &&& a.max_level_cap == b.max_level_cap
    &&& a.level_scale == b.level_scale
    &&& a.current_max_level == b.current_max_level
    &&& a.dim == b.dim
    &&& a.exact_fallback_threshold == b.exact_fallback_threshold
}

/// Nothing is stored of what is not a point.
proof fn lemma_absent(index: HNSWIndex, stored: HnswSnapshot, id: PointId, level: int)
    requires
        index.wf(),
        snapshot::is_snapshot(index, stored),
        !index.ids@.contains(id),
    ensures
        snapshot::level_of(stored.levels@, id) == 0,
        !stored.deleted@.contains(id),
        snapshot::list_at(snapshot::layers_view(stored.layers@), level, id) == Seq::<PointId>::empty(),
        forall|v: Seq<Score>| !#[trigger] snapshot::restored_vector(stored, id, v),
{
    let n = index.nodes();
    lemma_absent_level(index.ids@, index.levels@, n, id);
    lemma_absent_deleted(index.ids@, index.deleted@, n, id);
    lemma_absent_list(index.ids@, index.links(), index.layers@.len(), level, id);
    let vectors = snapshot::vectors_view(stored.vectors@);
    assert(vectors.len() == stored.vectors@.len());
    assert forall|v: Seq<Score>| !#[trigger] snapshot::restored_vector(stored, id, v) by {
        if snapshot::restored_vector(stored, id, v) {
            let k = choose|k: int| #[trigger] snapshot::vector_at(stored, k, id) && v == stored.vectors@[k].1@;
            assert(vectors[k] == (stored.vectors@[k].0, stored.vectors@[k].1@));
            assert(index.ids@[k] == id);
        }
    }
}

proof fn lemma_absent_level(ids: Seq<PointId>, levels: Seq<u8>, n: nat, id: PointId)
    requires
        n <= ids.len(),
        levels.len() == ids.len(),
        !ids.contains(id),
    ensures
        snapshot::level_of(Seq::new(n, |i: int| (ids[i], levels[i] as usize)), id) == 0,
    decreases n,
{
    if n > 0 {
        let all = Seq::new(n, |i: int| (ids[i], levels[i] as usize));
        lemma_absent_level(ids, levels, (n - 1) as nat, id);
        assert(all.drop_last() =~= Seq::new((n - 1) as nat, |i: int| (ids[i], levels[i] as usize)));
        assert(ids.contains(ids[n - 1]));
    }
}

proof fn lemma_absent_deleted(ids: Seq<PointId>, deleted: Seq<bool>, upto: nat, id: PointId)
    requires
        upto <= ids.len(),
        !ids.contains(id),
    ensures
        !snapshot::stored_deleted(ids, deleted, upto).contains(id),
    decreases upto,
{
    if upto > 0 {
        lemma_absent_deleted(ids, deleted, (upto - 1) as nat, id);
        let before = snapshot::stored_deleted(ids, deleted, (upto - 1) as nat);
        let out = snapshot::stored_deleted(ids, deleted, upto);
        assert(ids.contains(ids[upto - 1]));
        if out.contains(id) {
            let j = choose|j: int| 0 <= j < out.len() && out[j] == id;
            if j < before.len() {
                assert(before[j] == id);
            }
        }
    }
}

proof fn lemma_absent_list(ids: Seq<PointId>, links: Seq<Seq<Seq<usize>>>, upto: nat, level: int, id: PointId)
    requires
        upto <= links.len(),
        !ids.contains(id),
    ensures
        snapshot::list_at(snapshot::stored_layers(ids, links, upto), level, id) == Seq::<PointId>::empty(),
    decreases upto,
{
    if upto > 0 {
        let k = (upto - 1) as nat;
        lemma_absent_list(ids, links, k, level, id);
        lemma_absent_entry(ids, links[k as int], ids.len(), id);
        let layer = snapshot::stored_layer(ids, links[k as int], ids.len());
        if layer.len() > 0 {
            let out = snapshot::stored_layers(ids, links, upto);
            assert(out.drop_last() =~= snapshot::stored_layers(ids, links, k));
            assert(out.last().1 == layer);
        }
    }
}

proof fn lemma_absent_entry(ids: Seq<PointId>, layer: Seq<Seq<usize>>, upto: nat, id: PointId)
    requires
        upto <= ids.len(),
        !ids.contains(id),
    ensures
        snapshot::list_in(snapshot::stored_layer(ids, layer, upto), id) is None,
    decreases upto,
{
    if upto > 0 {
        let k = (upto - 1) as nat;
        lemma_absent_entry(ids, layer, k, id);
        assert(ids.contains(ids[k as int]));
        if layer[k as int].len() > 0 {
            let out = snapshot::stored_layer(ids, layer, upto);
            assert(out.drop_last() =~= snapshot::stored_layer(ids, layer, k));
        }
    }
}

/// What a snapshot of a graph says of one of its points.
proof fn lemma_stored_point(index: HNSWIndex, stored: HnswSnapshot, node: int, level: int)
    requires
        index.wf(),
        snapshot::is_snapshot(index, stored),
        0 <= node < index.nodes(),
        0 <= level,
    ensures
        snapshot::level_of(stored.levels@, index.ids@[node]) == index.levels@[node],
        stored.deleted@.contains(index.ids@[node]) == index.deleted@[node],
        snapshot::list_at(snapshot::layers_view(stored.layers@), level, index.ids@[node]) == if level
            < index.layers@.len() {
            reorder::points_of(index.ids@, index.links()[level][node])
        } else {
            Seq::<PointId>::empty()
        },
        forall|v: Seq<Score>| #[trigger]
            snapshot::restored_vector(stored, index.ids@[node], v) <==> v == index.vectors.vectors()[node],
{
    let n = index.nodes();
    let id = index.ids@[node];
    lemma_level_of(index.ids@, index.levels@, n, node);
    lemma_deleted(index.ids@, index.deleted@, n, node);
    assert(index.layers.len() == index.layers@.len());
    lemma_list_at(index.ids@, index.links(), index.layers@.len(), level, node);
    if level < index.layers@.len() && index.links()[level][node].len() == 0 {
        assert(reorder::points_of(index.ids@, index.links()[level][node]) =~= Seq::<PointId>::empty());
    }
    let vectors = snapshot::vectors_view(stored.vectors@);
    assert(vectors.len() == stored.vectors@.len());
    assert(vectors[node] == (stored.vectors@[node].0, stored.vectors@[node].1@));
    assert(snapshot::vector_at(stored, node, id));
    assert forall|v: Seq<Score>| #[trigger] snapshot::restored_vector(stored, id, v) implies v
        == index.vectors.vectors()[node] by {
        let k = choose|k: int| #[trigger] snapshot::vector_at(stored, k, id) && v == stored.vectors@[k].1@;
        assert(vectors[k] == (stored.vectors@[k].0, stored.vectors@[k].1@));
        assert(index.ids@[k] == id);
        assert(index.alloc.idx_to_point@[k] == index.alloc.idx_to_point@[node]);
    }
}

/// The snapshot of a restored graph is the snapshot that it was restored from, where no
/// other threshold is asked for.
pub proof fn law_snapshot_of_a_restored_graph(
    before: HNSWIndex,
    stored: HnswSnapshot,
    after: HNSWIndex,
    enabled: Option<bool>,
    again: HnswSnapshot,
)
    requires
        before.wf(),
        after.wf(),
        snapshot::is_snapshot(before, stored),
        snapshot::is_restored(stored, after, enabled, None),
        snapshot::is_snapshot(after, again),
    ensures
        say_the_same(stored, again),
{
    law_restoring_gives_back_the_points(before, stored, after, enabled, None, 0);
    let vectors = snapshot::vectors_view(stored.vectors@);
    assert(vectors.len() == stored.vectors@.len());
    assert(snapshot::vectors_view(again.vectors@).len() == again.vectors@.len());
    assert forall|id: PointId, v: Seq<Score>| #[trigger]
        snapshot::restored_vector(stored, id, v) <==> snapshot::restored_vector(again, id, v) by {
        lemma_same_point(before, stored, after, enabled, again, id, 0);
    }
    assert forall|id: PointId| #[trigger]
        snapshot::level_of(stored.levels@, id) == snapshot::level_of(again.levels@, id) by {
        lemma_same_point(before, stored, after, enabled, again, id, 0);
    }
    assert forall|id: PointId| #[trigger] stored.deleted@.contains(id) <==> again.deleted@.contains(id) by {
        lemma_same_point(before, stored, after, enabled, again, id, 0);
    }
    assert forall|level: int, id: PointId| 0 <= level implies #[trigger] snapshot::list_at(
        snapshot::layers_view(stored.layers@),
        level,
        id,
    ) == snapshot::list_at(snapshot::layers_view(again.layers@), level, id) by {
        lemma_same_point(before, stored, after, enabled, again, id, level);
    }
    if before.entry() is Some {
        let e = before.entry()->0;
        let id = before.ids@[e];
        assert(before.alloc.idx_to_point@[e] == id);
        assert(before.node_of(id) == Some(e));
        law_restoring_gives_back_the_points(before, stored, after, enabled, None, id);
        let node = after.node_of(id)->0;
        assert(after.ids@[node] == id);
    }
}

proof fn lemma_same_point(
    before: HNSWIndex,
    stored: HnswSnapshot,
    after: HNSWIndex,
    enabled: Option<bool>,
    again: HnswSnapshot,
    id: PointId,
    level: int,
)
    requires
        before.wf(),
        after.wf(),
        snapshot::is_snapshot(before, stored),
        snapshot::is_restored(stored, after, enabled, None),
        snapshot::is_snapshot(after, again),
        0 <= level,
    ensures
        snapshot::level_of(stored.levels@, id) == snapshot::level_of(again.levels@, id),
        stored.deleted@.contains(id) <==> again.deleted@.contains(id),
        snapshot::list_at(snapshot::layers_view(stored.layers@), level, id) == snapshot::list_at(
            snapshot::layers_view(again.layers@),
            level,
            id,
        ),
        forall|v: Seq<Score>| #[trigger]
            snapshot::restored_vector(stored, id, v) <==> snapshot::restored_vector(again, id, v),
{
    law_restoring_gives_back_the_points(before, stored, after, enabled, None, id);
    if before.ids@.contains(id) {
        let old_node = choose|i: int| 0 <= i < before.ids@.len() && before.ids@[i] == id;
        assert(before.alloc.idx_to_point@[old_node] == id);
        assert(before.node_of(id) == Some(old_node));
        let node = after.node_of(id)->0;
        assert(after.ids@[node] == id);
        lemma_stored_point(before, stored, old_node, level);
        lemma_stored_point(after, again, node, level);
        if level < before.layers@.len() {
            assert(before.links()[level][old_node] == before.links()[level][old_node]);
            if level >= after.layers@.len() {
                assert(reorder::points_of(before.ids@, before.links()[level][old_node]) =~= Seq::<PointId>::empty());
            }
        } else if level < after.layers@.len() {
            assert(after.links()[level][node] == snapshot::known(
                after.alloc.point_to_idx@,
                snapshot::list_at(snapshot::layers_view(stored.layers@), level, after.ids@[node]),
            ));
            assert(reorder::points_of(after.ids@, after.links()[level][node]) =~= Seq::<PointId>::empty());
        }
    } else {
        assert(!after.ids@.contains(id)) by {
            if after.ids@.contains(id) {
                let i = choose|i: int| 0 <= i < after.ids@.len() && after.ids@[i] == id;
                assert(after.alloc.idx_to_point@[i] == id);
                assert(after.node_of(id) is Some);
                let k = before.node_of(id)->0;
                assert(before.ids@[k] == id);
            }
        }
        lemma_absent(before, stored, id, level);
        lemma_absent(after, again, id, level);
    }
}

} // verus!
