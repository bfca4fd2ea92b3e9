//! What the parts of a graph hold: which candidates become neighbours, how lists are
//! ordered, which points filters link, and what is listed of a graph.

use vstd::prelude::*;
use crate::arith;
use crate::hnsw::edges;
use crate::hnsw::filter_edges;
use crate::hnsw::graph;
use crate::hnsw::graph::HNSWIndex;
use crate::hnsw::lid;
use crate::hnsw::link;
use crate::hnsw::listing;
use crate::hnsw::quant;
use crate::hnsw::select;
use crate::hnsw::space;
use crate::hnsw::space::{Links, Space};
use crate::hnsw::types::{DistanceMetric, NodeCandidate, PointId};
use crate::laws::encode::numbers;
use crate::order;
use crate::score;
use crate::score::Score;

verus! {

/// The key of a score is such that smaller keys are closer: products count negated, all
/// other scores as they are.
pub proof fn law_smaller_keys_are_closer(raw: Score)
    ensures
        graph::order_key(DistanceMetric::Dot, raw) == score::negated(raw),
        graph::order_key(DistanceMetric::Cosine, raw) == raw,
        graph::order_key(DistanceMetric::Euclidean, raw) == raw,
{
}

/// The numbers by which candidates are ordered.
pub open spec fn keys_of(candidates: Seq<NodeCandidate>) -> Seq<int> {
    candidates.map_values(|c: NodeCandidate| score::value_key(c.sort_key))
}

/// Whether positions are all those below a number, each once, in the order of keys;
/// positions of equal keys in their own order.
pub open spec fn is_stable_order(keys: Seq<int>, positions: Seq<int>) -> bool {
    &&& positions.len() == keys.len()
    &&& forall|i: int| 0 <= i < positions.len() ==> 0 <= #[trigger] positions[i] < keys.len()
    &&& forall|i: int, j: int|
        0 <= i < j < positions.len() ==> {
            let a = #[trigger] positions[i];
            let b = #[trigger] positions[j];
            keys[a] < keys[b] || (keys[a] == keys[b] && a < b)
        }
}

/// Sorted candidates are the candidates in the order of their keys, those of equal keys
/// as they were.
pub proof fn law_candidates_are_sorted_stably(candidates: Seq<NodeCandidate>)
    requires
        candidates.len() <= u64::MAX,
    ensures
        exists|positions: Seq<int>| #[trigger]
            is_stable_order(keys_of(candidates), positions) && space::sorted_candidates(candidates) == positions.map_values(|i: int| candidates[i]),
{
    let keys = space::candidate_keys(candidates);
    let found = order::stable_order(keys);
    order::law_stable_order(keys);
    let positions = found.map_values(|i: u64| i as int);
    let plain = keys_of(candidates);
    assert forall|i: int, j: int| 0 <= i < j < positions.len() implies {
        let a = #[trigger] positions[i];
        let b = #[trigger] positions[j];
        plain[a] < plain[b] || (plain[a] == plain[b] && a < b)
    } by {
        let a = found[i];
        let b = found[j];
        assert(keys[a as int] < keys[b as int] || (keys[a as int] == keys[b as int] && a < b));
        assert(keys[a as int] == plain[a as int] && keys[b as int] == plain[b as int]);
    }
    assert(is_stable_order(plain, positions));
    assert(space::sorted_candidates(candidates) =~= positions.map_values(|i: int| candidates[i]));
}

/// Whether a candidate is far enough from all that are chosen: none of them that is not
/// deleted is closer to it than what its key allows.
pub open spec fn is_apart<F: Fn(&[Score], &[Score]) -> Score, S: Fn(Score, usize) -> Score>(
    space: Space,
    score: F,
    allowance: S,
    level: usize,
    chosen: Seq<usize>,
    c: NodeCandidate,
) -> bool {
    forall|j: int|
        0 <= j < chosen.len() && 0 <= #[trigger] chosen[j] < space.vectors.len() && !space.deleted[chosen[j] as int]
            ==> !score::less(
            graph::order_key(
                space.metric,
                arith::measure(score, space.vectors[c.idx as int], space.vectors[chosen[j] as int]),
            ),
            arith::scaled(allowance, c.sort_key, level),
        )
}

proof fn lemma_diverse<F: Fn(&[Score], &[Score]) -> Score, S: Fn(Score, usize) -> Score>(
    space: Space,
    score: F,
    allowance: S,
    level: usize,
    floor: int,
    m: int,
    candidates: Seq<NodeCandidate>,
    step: spec_fn(Seq<usize>, NodeCandidate) -> Seq<usize>,
)
    requires
        forall|chosen: Seq<usize>, c: NodeCandidate| #[trigger]
            step(chosen, c) == if chosen.len() < m && !chosen.contains(c.idx) && c.idx < space.vectors.len()
                && !space.deleted[c.idx as int] && (chosen.len() < floor || is_apart(
                space,
                score,
                allowance,
                level,
                chosen,
                c,
            )) {
                chosen.push(c.idx)
            } else {
                chosen
            },
    ensures
        select::diverse(space, score, allowance, level, floor, m, candidates) == candidates.fold_left(
            Seq::empty(),
            step,
        ),
    decreases candidates.len(),
{
    if candidates.len() > 0 {
        lemma_diverse(space, score, allowance, level, floor, m, candidates.drop_last(), step);
        let chosen = select::diverse(space, score, allowance, level, floor, m, candidates.drop_last());
        let c = candidates.last();
        if space.live(c.idx as int) {
            assert(select::too_close(space, score, allowance, level, c, chosen) <==> !is_apart(
                space,
                score,
                allowance,
                level,
                chosen,
                c,
            ));
        }
    }
}

proof fn lemma_filled(
    chosen: Seq<usize>,
    m: int,
    candidates: Seq<NodeCandidate>,
    step: spec_fn(Seq<usize>, NodeCandidate) -> Seq<usize>,
)
    requires
        forall|chosen: Seq<usize>, c: NodeCandidate| #[trigger]
            step(chosen, c) == if chosen.len() < m && !chosen.contains(c.idx) {
                chosen.push(c.idx)
            } else {
                chosen
            },
    ensures
        select::filled(chosen, m, candidates) == candidates.fold_left(chosen, step),
    decreases candidates.len(),
{
    if candidates.len() > 0 {
        lemma_filled(chosen, m, candidates.drop_last(), step);
    }
}

/// Neighbours are selected from all candidates in their order: first those that are not
/// deleted and, beyond the floor, far enough from all chosen before; then the others,
/// until there are enough.
pub proof fn law_neighbours_are_diverse_and_filled_up<
    F: Fn(&[Score], &[Score]) -> Score,
    S: Fn(Score, usize) -> Score,
>(space: Space, score: F, allowance: S, level: usize, floor: int, m: int, candidates: Seq<NodeCandidate>)
    ensures
        select::selected(space, score, allowance, level, floor, m, candidates) == candidates.fold_left(
            candidates.fold_left(
                Seq::empty(),
                |chosen: Seq<usize>, c: NodeCandidate|
                    if chosen.len() < m && !chosen.contains(c.idx) && c.idx < space.vectors.len()
                        && !space.deleted[c.idx as int] && (chosen.len() < floor || is_apart(
                        space,
                        score,
                        allowance,
                        level,
                        chosen,
                        c,
                    )) {
                        chosen.push(c.idx)
                    } else {
                        chosen
                    },
            ),
            |chosen: Seq<usize>, c: NodeCandidate|
                if chosen.len() < m && !chosen.contains(c.idx) {
                    chosen.push(c.idx)
                } else {
                    chosen
                },
        ),
{
    lemma_diverse(
        space,
        score,
        allowance,
        level,
        floor,
        m,
        candidates,
        |chosen: Seq<usize>, c: NodeCandidate|
            if chosen.len() < m && !chosen.contains(c.idx) && c.idx < space.vectors.len()
                && !space.deleted[c.idx as int] && (chosen.len() < floor || is_apart(
                space,
                score,
                allowance,
                level,
                chosen,
                c,
            )) {
                chosen.push(c.idx)
            } else {
                chosen
            },
    );
    lemma_filled(
        select::diverse(space, score, allowance, level, floor, m, candidates),
        m,
        candidates,
        |chosen: Seq<usize>, c: NodeCandidate|
            if chosen.len() < m && !chosen.contains(c.idx) {
                chosen.push(c.idx)
            } else {
                chosen
            },
    );
}

/// Whether a node of a space is not deleted.
pub open spec fn is_there(space: Space) -> spec_fn(usize) -> bool {
    |node: usize| node < space.vectors.len() && !space.deleted[node as int]
}

/// The candidates that a list gives are its nodes that are not deleted, in their order,
/// each with its score from the node and the key of that score.
pub proof fn law_live_candidates_are_the_live_nodes<F: Fn(&[Score], &[Score]) -> Score>(
    space: Space,
    score: F,
    node: int,
    list: Seq<usize>,
)
    ensures
        edges::live_candidates(space, score, node, list) == list.filter(is_there(space)).map_values(
            |to: usize|
                NodeCandidate {
                    idx: to,
                    raw_score: arith::measure(score, space.vectors[node], space.vectors[to as int]),
                    sort_key: graph::order_key(
                        space.metric,
                        arith::measure(score, space.vectors[node], space.vectors[to as int]),
                    ),
                },
        ),
    decreases list.len(),
{
    reveal(Seq::filter);
    let f = |to: usize|
        NodeCandidate {
            idx: to,
            raw_score: arith::measure(score, space.vectors[node], space.vectors[to as int]),
            sort_key: graph::order_key(
                space.metric,
                arith::measure(score, space.vectors[node], space.vectors[to as int]),
            ),
        };
    if list.len() == 0 {
        assert(list.filter(is_there(space)).map_values(f) =~= Seq::empty());
    } else {
        law_live_candidates_are_the_live_nodes(space, score, node, list.drop_last());
        let before = list.drop_last().filter(is_there(space));
        if space.live(list.last() as int) {
            assert(list.filter(is_there(space)) == before.push(list.last()));
            assert(before.push(list.last()).map_values(f) =~= before.map_values(f).push(f(list.last())));
        } else {
            assert(list.filter(is_there(space)) == before);
        }
    }
}

/// An added edge leaves a list with all that it held and the new neighbour, without what
/// is deleted, the closest first; and changes no other list.
pub proof fn law_added_edges_are_kept_in_order<F: Fn(&[Score], &[Score]) -> Score, S: Fn(Score, usize) -> Score>(
    space: Space,
    score: F,
    allowance: S,
    floor: int,
    links: Links,
    level: usize,
    from: int,
    to: usize,
)
    requires
        level < links.layers.len(),
        0 <= from < links.layers[level as int].len(),
        links.layers[level as int][from].len() > 0,
        links.layers[level as int][from].len() < u64::MAX,
        !links.layers[level as int][from].contains(to) || links.layers[level as int][from].len() > 1,
        from < space.vectors.len(),
        !space.deleted[from],
    ensures
        ({
            let after = edges::edge_added(space, score, allowance, floor, false, links, level, from, to);
            let list = after.layers[level as int][from];
            let key = |node: int|
                score::value_key(
                    graph::order_key(space.metric, arith::measure(score, space.vectors[from], space.vectors[node])),
                );
            &&& forall|x: usize| #[trigger]
                list.contains(x) <==> is_there(space)(x) && (x == to || links.layers[level as int][from].contains(x))
            &&& forall|i: int, j: int|
                0 <= i < j < list.len() ==> key(#[trigger] list[i] as int) <= key(#[trigger] list[j] as int)
            &&& after.layers.len() == links.layers.len()
            &&& forall|l: int, n: int|
                0 <= l < links.layers.len() && 0 <= n < links.layers[l].len() && (l != level || n != from) ==> (
                #[trigger] after.layers[l][n]) == links.layers[l][n]
        }),
{
    let old_list = links.list(level as int, from);
    let pushed = edges::pushed_unique(old_list, to);
    let candidates = edges::live_candidates(space, score, from, pushed);
    let kept = pushed.filter(is_there(space));
    law_live_candidates_are_the_live_nodes(space, score, from, pushed);
    pushed.lemma_filter_len(is_there(space));
    space::law_sorted_candidates(candidates);
    let sorted = space::sorted_candidates(candidates);
    let after = edges::edge_added(space, score, allowance, floor, false, links, level, from, to);
    let list = after.layers[level as int][from];
    assert(list =~= link::candidate_nodes(sorted));
    assert forall|x: usize| #[trigger] list.contains(x) <==> is_there(space)(x) && (x == to || old_list.contains(x)) by {
        if list.contains(x) {
            let i = choose|i: int| 0 <= i < list.len() && list[i] == x;
            assert(candidates.contains(sorted[i]));
            let k = choose|k: int| 0 <= k < candidates.len() && candidates[k] == sorted[i];
            assert(kept[k] == x);
            pushed.lemma_filter_pred(is_there(space), k);
            assert(kept.contains(x));
            pushed.lemma_filter_contains_rev(is_there(space), x);
            let q = choose|q: int| 0 <= q < pushed.len() && pushed[q] == x;
            if q < old_list.len() {
                assert(old_list[q] == x);
            }
        }
        if is_there(space)(x) && (x == to || old_list.contains(x)) {
            if old_list.contains(x) {
                let q = choose|q: int| 0 <= q < old_list.len() && old_list[q] == x;
                assert(pushed[q] == x);
            } else {
                assert(pushed[old_list.len() as int] == x);
            }
            let q = choose|q: int| 0 <= q < pushed.len() && pushed[q] == x;
            pushed.lemma_filter_contains(is_there(space), q);
            let k = choose|k: int| 0 <= k < kept.len() && kept[k] == x;
            assert(candidates.contains(candidates[k]));
            assert(sorted.contains(candidates[k]));
            let i = choose|i: int| 0 <= i < sorted.len() && sorted[i] == candidates[k];
            assert(list[i] == x);
        }
    }
    assert forall|i: int, j: int| 0 <= i < j < list.len() implies score::value_key(
        graph::order_key(
            space.metric,
            arith::measure(score, space.vectors[from], space.vectors[#[trigger] list[i] as int]),
        ),
    ) <= score::value_key(
        graph::order_key(
            space.metric,
            arith::measure(score, space.vectors[from], space.vectors[#[trigger] list[j] as int]),
        ),
    ) by {
        assert(candidates.contains(sorted[i]) && candidates.contains(sorted[j]));
        assert(score::value_key(sorted[i].sort_key) <= score::value_key(sorted[j].sort_key));
    }
}

/// The points that a point may be linked to are all of a list but itself that have a
/// node that is not deleted.
pub proof fn law_eligible_points(index: HNSWIndex, point_id: PointId, ids: Seq<PointId>)
    ensures
        filter_edges::eligible(index, point_id, ids) == ids.filter(
            |id: PointId| id != point_id && index.node_of(id) is Some && index.present(index.node_of(id)->0),
        ),
    decreases ids.len(),
{
    reveal(Seq::filter);
    if ids.len() > 0 {
        law_eligible_points(index, point_id, ids.drop_last());
    } else {
        assert(ids.filter(
            |id: PointId| id != point_id && index.node_of(id) is Some && index.present(index.node_of(id)->0),
        ) =~= Seq::empty());
    }
}

proof fn lemma_joined(found: Seq<usize>, candidates: Seq<NodeCandidate>)
    requires
        found.no_duplicates(),
    ensures
        ({
            let out = filter_edges::joined(found, candidates);
            &&& out.no_duplicates()
            &&& forall|x: usize| #[trigger]
                out.contains(x) <==> found.contains(x) || exists|k: int|
                    0 <= k < candidates.len() && (#[trigger] candidates[k]).idx == x
        }),
    decreases candidates.len(),
{
    if candidates.len() > 0 {
        let rest = candidates.drop_last();
        let before = filter_edges::joined(found, rest);
        let out = filter_edges::joined(found, candidates);
        let last = candidates.last().idx;
        lemma_joined(found, rest);
        assert forall|x: usize| #[trigger] out.contains(x) <==> found.contains(x) || exists|k: int|
            0 <= k < candidates.len() && (#[trigger] candidates[k]).idx == x by {
            if out.contains(x) {
                let i = choose|i: int| 0 <= i < out.len() && out[i] == x;
                if i < before.len() {
                    assert(before.contains(x)) by {
                        assert(before[i] == x);
                    }
                    if !found.contains(x) {
                        let k = choose|k: int| 0 <= k < rest.len() && (#[trigger] rest[k]).idx == x;
                        assert(candidates[k].idx == x);
                    }
                } else {
                    assert(candidates[candidates.len() - 1].idx == x);
                }
            }
            if found.contains(x) || exists|k: int| 0 <= k < candidates.len() && (#[trigger] candidates[k]).idx == x {
                if !found.contains(x) {
                    let k = choose|k: int| 0 <= k < candidates.len() && (#[trigger] candidates[k]).idx == x;
                    if k < rest.len() {
                        assert(rest[k].idx == x);
                    }
                }
                if before.contains(x) {
                    let i = choose|i: int| 0 <= i < before.len() && before[i] == x;
                    assert(out[i] == x);
                } else {
                    assert(out[before.len() as int] == x);
                }
            }
        }
    }
}

/// The targets of a point are, each once, the nodes of every sample that are closest to
/// the query.
pub proof fn law_targets_are_the_closest_of_every_sample<F: Fn(&[Score], &[Score]) -> Score>(
    index: HNSWIndex,
    score: F,
    query: Seq<Score>,
    samples: Seq<Seq<PointId>>,
)
    ensures
        filter_edges::targets(index, score, query, samples).no_duplicates(),
        forall|x: usize| #[trigger]
            filter_edges::targets(index, score, query, samples).contains(x) <==> exists|s: int, k: int|
                0 <= s < samples.len() && 0 <= k < filter_edges::closest(index, score, query, samples[s]).len() && (
                #[trigger] filter_edges::closest(index, score, query, samples[s])[k]).idx == x,
    decreases samples.len(),
{
    if samples.len() > 0 {
        let rest = samples.drop_last();
        let last = samples[samples.len() - 1];
        law_targets_are_the_closest_of_every_sample(index, score, query, rest);
        let before = filter_edges::targets(index, score, query, rest);
        lemma_joined(before, filter_edges::closest(index, score, query, last));
        let out = filter_edges::targets(index, score, query, samples);
        assert forall|x: usize| #[trigger] out.contains(x) <==> exists|s: int, k: int|
            0 <= s < samples.len() && 0 <= k < filter_edges::closest(index, score, query, samples[s]).len() && (
            #[trigger] filter_edges::closest(index, score, query, samples[s])[k]).idx == x by {
            if before.contains(x) {
                let (s, k) = choose|s: int, k: int|
                    0 <= s < rest.len() && 0 <= k < filter_edges::closest(index, score, query, rest[s]).len() && (
                    #[trigger] filter_edges::closest(index, score, query, rest[s])[k]).idx == x;
                assert(samples[s] == rest[s]);
                assert(filter_edges::closest(index, score, query, samples[s])[k].idx == x);
            } else if out.contains(x) {
                let all = filter_edges::closest(index, score, query, last);
                let k = choose|k: int| 0 <= k < all.len() && (#[trigger] all[k]).idx == x;
                assert(filter_edges::closest(index, score, query, samples[samples.len() - 1])[k].idx == x);
            }
            if exists|s: int, k: int|
                0 <= s < samples.len() && 0 <= k < filter_edges::closest(index, score, query, samples[s]).len() && (
                #[trigger] filter_edges::closest(index, score, query, samples[s])[k]).idx == x {
                let (s, k) = choose|s: int, k: int|
                    0 <= s < samples.len() && 0 <= k < filter_edges::closest(index, score, query, samples[s]).len() && (
                    #[trigger] filter_edges::closest(index, score, query, samples[s])[k]).idx == x;
                if s < rest.len() {
                    assert(rest[s] == samples[s]);
                    assert(filter_edges::closest(index, score, query, rest[s])[k].idx == x);
                    assert(before.contains(x));
                } else {
                    let all = filter_edges::closest(index, score, query, last);
                    assert(all[k].idx == x);
                }
            }
        }
    }
}

/// A sample's points, each with its node, its score from the query and the key of that.
pub open spec fn measured<F: Fn(&[Score], &[Score]) -> Score>(
    index: HNSWIndex,
    score: F,
    query: Seq<Score>,
    sample: Seq<PointId>,
) -> Seq<NodeCandidate> {
    sample.map_values(
        |id: PointId|
            {
                let raw = arith::measure(score, query, index.vectors.vectors()[index.node_of(id)->0]);
                NodeCandidate {
                    idx: index.node_of(id)->0 as usize,
                    raw_score: raw,
                    sort_key: graph::order_key(index.metric, raw),
                }
            },
    )
}

/// The closest of a sample are the beginning of its points in the order of their keys
/// from the query, as many as a node has neighbours in the lowest layer.
pub proof fn law_closest_of_a_sample<F: Fn(&[Score], &[Score]) -> Score>(
    index: HNSWIndex,
    score: F,
    query: Seq<Score>,
    sample: Seq<PointId>,
)
    requires
        sample.len() <= u64::MAX,
    ensures
        exists|positions: Seq<int>| #[trigger]
            is_stable_order(keys_of(measured(index, score, query, sample)), positions) && filter_edges::closest(
                index,
                score,
                query,
                sample,
            ) == positions.take(
                if index.m0 < sample.len() {
                    index.m0 as int
                } else {
                    sample.len() as int
                },
            ).map_values(|i: int| measured(index, score, query, sample)[i]),
{
    let all = measured(index, score, query, sample);
    let found = filter_edges::query_candidates(index, score, query, sample);
    assert(found =~= all);
    law_candidates_are_sorted_stably(all);
    let positions = choose|positions: Seq<int>| #[trigger]
        is_stable_order(keys_of(all), positions) && space::sorted_candidates(all) == positions.map_values(
            |i: int| all[i],
        );
    let n = if index.m0 < sample.len() {
        index.m0 as int
    } else {
        sample.len() as int
    };
    assert(filter_edges::closest(index, score, query, sample) =~= positions.take(n).map_values(|i: int| all[i]));
    assert(is_stable_order(keys_of(measured(index, score, query, sample)), positions));
}

/// The extreme of a dimension is taken over all vectors that are not deleted.
pub proof fn law_extremes_are_over_all_vectors<F: Fn(Score, Score) -> Score>(
    pick: F,
    start: Score,
    vectors: Seq<Seq<Score>>,
    deleted: Seq<bool>,
    d: int,
    n: nat,
)
    ensures
        quant::extreme(pick, start, vectors, deleted, d, n) == numbers(n).filter(|i: int| !deleted[i]).fold_left(
            start,
            |most: Score, i: int| arith::binary(pick, most, vectors[i][d]),
        ),
    decreases n,
{
    reveal(Seq::filter);
    let p = |i: int| !deleted[i];
    let f = |most: Score, i: int| arith::binary(pick, most, vectors[i][d]);
    if n == 0 {
        assert(numbers(0).filter(p) =~= Seq::<int>::empty());
    } else {
        law_extremes_are_over_all_vectors(pick, start, vectors, deleted, d, (n - 1) as nat);
        assert(numbers(n).drop_last() =~= numbers((n - 1) as nat));
        let before = numbers((n - 1) as nat).filter(p);
        if !deleted[n - 1] {
            assert(numbers(n).filter(p) == before.push(n - 1));
            assert(before.push(n - 1).drop_last() =~= before);
        } else {
            assert(numbers(n).filter(p) == before);
        }
    }
}

/// The codes of a vector are the codes of its numbers: with the cosine metric by
/// themselves, else between the least and the greatest of their dimension.
pub proof fn law_codes_are_number_by_number<C: Fn(Score) -> u8, D: Fn(Score, Score, Score) -> u8>(
    metric: DistanceMetric,
    centered: C,
    scaled: D,
    min: Seq<Score>,
    scale: Seq<Score>,
    vectors: Seq<Seq<Score>>,
    dim: nat,
    i: int,
    d: int,
)
    requires
        0 <= i < vectors.len(),
        forall|k: int| 0 <= k < vectors.len() ==> (#[trigger] vectors[k]).len() == dim,
        0 <= d < dim,
    ensures
        quant::all_codes(metric, centered, scaled, min, scale, vectors, vectors.len()).len() == vectors.len() * dim,
        quant::all_codes(metric, centered, scaled, min, scale, vectors, vectors.len())[i * dim + d] == (if metric
            == DistanceMetric::Cosine {
            quant::code(centered, vectors[i][d])
        } else {
            quant::scaled_code(scaled, vectors[i][d], min[d], scale[d])
        }),
{
    let all = quant::all_codes(metric, centered, scaled, min, scale, vectors, vectors.len());
    quant::law_codes_of_a_node(metric, centered, scaled, min, scale, vectors, dim, vectors.len(), i);
    let own = all.subrange(i * dim, (i + 1) * dim);
    assert((i + 1) * dim == i * dim + dim && i * dim >= 0) by (nonlinear_arith)
        requires
            i >= 0,
            dim >= 0,
    ;
    assert(vectors[i].len() == dim);
    assert(own[d] == all[i * dim + d]);
}

/// The product of codes and a query is the sum over all places.
pub proof fn law_code_products_are_sums(codes: Seq<u8>, query: Seq<int>, offset: int)
    requires
        codes.len() == query.len(),
    ensures
        quant::code_dot(codes, query, offset) == Seq::new(
            codes.len(),
            |d: int| (codes[d] - offset) * query[d],
        ).fold_left(0, |s: int, x: int| s + x),
    decreases codes.len(),
{
    let parts = Seq::new(codes.len(), |d: int| (codes[d] - offset) * query[d]);
    if codes.len() > 0 {
        law_code_products_are_sums(codes.drop_last(), query.drop_last(), offset);
        assert(parts.drop_last() =~= Seq::new(
            codes.drop_last().len(),
            |d: int| (codes.drop_last()[d] - offset) * query.drop_last()[d],
        ));
    }
}

/// The numbers that put estimates in falling order.
pub open spec fn falling(lids: Seq<Score>) -> Seq<int> {
    lids.map_values(|l: Score| -score::value_key(l))
}

/// A batch is ordered by its estimates, the greatest first, equal ones as they were; a
/// batch of fewer than four stays as it is.
pub proof fn law_batches_are_ordered_by_estimates(lids: Seq<Score>)
    requires
        lids.len() <= u64::MAX,
    ensures
        lids.len() >= lid::MIN_BATCH ==> is_stable_order(
            falling(lids),
            lid::lid_sorted(lids),
        ),
        lids.len() < lid::MIN_BATCH ==> lid::lid_sorted(lids) == numbers(lids.len()),
        lid::MIN_BATCH == 4,
{
    if lids.len() >= lid::MIN_BATCH {
        let keys = lid::descending_keys(lids);
        order::law_stable_order(keys);
        let found = order::stable_order(keys);
        let plain = falling(lids);
        let out = lid::lid_sorted(lids);
        assert forall|i: int, j: int| 0 <= i < j < out.len() implies {
            let a = #[trigger] out[i];
            let b = #[trigger] out[j];
            plain[a] < plain[b] || (plain[a] == plain[b] && a < b)
        } by {
            let a = found[i];
            let b = found[j];
            assert(keys[a as int] < keys[b as int] || (keys[a as int] == keys[b as int] && a < b));
            assert(keys[a as int] == plain[a as int] && keys[b as int] == plain[b as int]);
        }
    } else {
        assert(lid::lid_sorted(lids) =~= numbers(lids.len()));
    }
}

/// The points that are not deleted are all of them, in the order of their nodes.
pub proof fn law_active_nodes_are_all_that_are_not_deleted(deleted: Seq<bool>, n: nat)
    ensures
        listing::active_nodes(deleted, n) == numbers(n).filter(|i: int| !deleted[i]),
    decreases n,
{
    reveal(Seq::filter);
    if n == 0 {
        assert(numbers(0).filter(|i: int| !deleted[i]) =~= Seq::<int>::empty());
    } else {
        law_active_nodes_are_all_that_are_not_deleted(deleted, (n - 1) as nat);
        assert(numbers(n).drop_last() =~= numbers((n - 1) as nat));
    }
}

/// A level is counted once for each point that has it, and the highest for each that is
/// above.
pub proof fn law_levels_are_counted(levels: Seq<usize>, level: int, top: int)
    ensures
        listing::level_count(levels, level, top) == levels.filter(
            |l: usize|
                level == if l < top {
                    l as int
                } else {
                    top
                },
        ).len(),
    decreases levels.len(),
{
    reveal(Seq::filter);
    if levels.len() > 0 {
        law_levels_are_counted(levels.drop_last(), level, top);
    }
}

/// Underscores in a number are passed over.
pub proof fn law_underscores_are_passed_over(text: Seq<u8>)
    ensures
        listing::without_underscores(text) == text.filter(|b: u8| b != 95),
    decreases text.len(),
{
    reveal(Seq::filter);
    if text.len() > 0 {
        law_underscores_are_passed_over(text.drop_last());
    } else {
        assert(text.filter(|b: u8| b != 95) =~= Seq::empty());
    }
}

/// A text stands for a count just where decimal digits are left of it without underscores
/// and without one plus sign before them, and their number can be held.
pub proof fn law_counts_are_read(text: Seq<u8>, n: usize)
    ensures
        listing::count_of(text) == Some(n) <==> exists|digits: Seq<u8>| #[trigger]
            are_digits(digits) && digits.fold_left(0int, |n: int, digit: u8| 10 * n + (digit - 48)) == n && (text.filter(
                |b: u8| b != 95,
            ) == digits || text.filter(|b: u8| b != 95) == seq![43u8] + digits),
{
    law_underscores_are_passed_over(text);
    let plain = text.filter(|b: u8| b != 95);
    let digits = listing::number_digits(plain);
    if listing::count_of(text) == Some(n) {
        law_decimal_digits(digits);
        if plain[0] == 43 {
            assert(plain =~= seq![43u8] + digits);
        }
        assert(are_digits(digits));
    }
    assert forall|other: Seq<u8>| #[trigger]
        are_digits(other) && other.fold_left(0int, |n: int, digit: u8| 10 * n + (digit - 48)) == n && (plain == other
            || plain == seq![43u8] + other) implies listing::count_of(text) == Some(n) by {
        if plain == other {
            assert(48 <= other[0] <= 57);
        } else {
            assert(plain.skip(1) =~= other);
        }
        assert(digits == other);
        law_decimal_digits(digits);
    }
}

/// Whether bytes are decimal digits, at least one.
pub open spec fn are_digits(bytes: Seq<u8>) -> bool {
    bytes.len() > 0 && forall|i: int| 0 <= i < bytes.len() ==> 48 <= #[trigger] bytes[i] <= 57
}

/// Whether a text, if there is one, stands for a count other than zero.
pub open spec fn sets(text: Option<Seq<u8>>, n: usize) -> bool {
    text is Some && n > 0 && listing::count_of(text->0) == Some(n)
}

/// The first of two settings that is a count other than zero is taken, or else the
/// default.
pub proof fn law_the_first_setting_counts(first: Option<Seq<u8>>, second: Option<Seq<u8>>, otherwise: usize, n: usize)
    ensures
        ({
            let r = listing::setting_of(first, second, otherwise);
            &&& sets(first, n) ==> r == n
            &&& !sets(first, r) && sets(second, n) ==> r == n
            &&& !sets(first, r) && !sets(second, r) ==> r == otherwise
        }),
{
}

/// Digits stand for a number each ten times the one before it.
pub proof fn law_decimal_digits(digits: Seq<u8>)
    requires
        forall|i: int| 0 <= i < digits.len() ==> 48 <= #[trigger] digits[i] <= 57,
    ensures
        listing::decimal(digits) == digits.fold_left(0int, |n: int, digit: u8| 10 * n + (digit - 48)),
    decreases digits.len(),
{
    if digits.len() > 0 {
        let rest = digits.drop_last();
        assert forall|i: int| 0 <= i < rest.len() implies 48 <= #[trigger] rest[i] <= 57 by {
            assert(rest[i] == digits[i]);
        }
        law_decimal_digits(rest);
        assert(digits[digits.len() - 1] == digits.last());
    }
}

proof fn lemma_resorted<F: Fn(&[Score], &[Score]) -> Score>(
    space: Space,
    score: F,
    links: Links,
    level: int,
    node: int,
    x: usize,
)
    requires
        0 <= level < links.layers.len(),
        0 <= node < links.layers[level].len(),
        links.layers[level][node].len() <= u64::MAX,
        x < space.vectors.len(),
        !space.deleted[x as int],
    ensures
        ({
            let after = edges::resorted(space, score, links, level, node);
            &&& after.layers[level][node].contains(x) <==> links.layers[level][node].contains(x)
            &&& after.layers.len() == links.layers.len()
            &&& forall|l: int| 0 <= l < links.layers.len() && l != level ==> (#[trigger] after.layers[l]) == links.layers[l]
            &&& after.layers[level].len() == links.layers[level].len()
            &&& forall|n: int|
                0 <= n < links.layers[level].len() && n != node ==> (#[trigger] after.layers[level][n])
                    == links.layers[level][n]
        }),
{
    let list = links.layers[level][node];
    if list.len() > 1 && space.live(node) {
        let candidates = edges::live_candidates(space, score, node, list);
        let kept = list.filter(is_there(space));
        law_live_candidates_are_the_live_nodes(space, score, node, list);
        list.lemma_filter_len(is_there(space));
        space::law_sorted_candidates(candidates);
        let sorted = space::sorted_candidates(candidates);
        let out = link::candidate_nodes(sorted);
        assert(edges::resorted(space, score, links, level, node).layers[level][node] =~= out);
        if out.contains(x) {
            let i = choose|i: int| 0 <= i < out.len() && out[i] == x;
            assert(candidates.contains(sorted[i]));
            let k = choose|k: int| 0 <= k < candidates.len() && candidates[k] == sorted[i];
            assert(kept[k] == x);
            assert(kept.contains(x));
            list.lemma_filter_contains_rev(is_there(space), x);
        }
        if list.contains(x) {
            let q = choose|q: int| 0 <= q < list.len() && list[q] == x;
            list.lemma_filter_contains(is_there(space), q);
            let k = choose|k: int| 0 <= k < kept.len() && kept[k] == x;
            assert(candidates.contains(candidates[k]));
            assert(sorted.contains(candidates[k]));
            let i = choose|i: int| 0 <= i < sorted.len() && sorted[i] == candidates[k];
            assert(out[i] == x);
        }
    }
}

/// An edge between two nodes goes both ways: each of them then has the other in its list,
/// and every neighbour that it had.
pub proof fn law_edges_go_both_ways<F: Fn(&[Score], &[Score]) -> Score, S: Fn(Score, usize) -> Score>(
    space: Space,
    score: F,
    allowance: S,
    floor: int,
    links: Links,
    level: usize,
    a: usize,
    b: usize,
    x: usize,
)
    requires
        level < links.layers.len(),
        a < links.layers[level as int].len(),
        b < links.layers[level as int].len(),
        a != b,
        links.layers[level as int][a as int].len() < u64::MAX,
        links.layers[level as int][b as int].len() < u64::MAX,
        x < space.vectors.len(),
        !space.deleted[x as int],
    ensures
        ({
            let before = links.layers[level as int];
            let after = edges::edges_added(space, score, allowance, floor, false, links, level, a, b).layers[level as int];
            &&& after.len() == before.len()
            &&& after[a as int].contains(x) <==> before[a as int].contains(x) || x == b
            &&& after[b as int].contains(x) <==> before[b as int].contains(x) || x == a
            &&& forall|n: int| 0 <= n < before.len() && n != a && n != b ==> (#[trigger] after[n]) == before[n]
        }),
{
    let before = links.layers[level as int];
    let pa = edges::pushed_unique(before[a as int], b);
    let pb = edges::pushed_unique(before[b as int], a);
    let forth = links.with_list(level as int, a as int, pa);
    assert(forth.layers[level as int][b as int] == before[b as int]);
    let both = forth.with_list(level as int, b as int, pb);
    assert(both.layers[level as int][a as int] == pa);
    assert(both.layers[level as int][b as int] == pb);
    lemma_pushed(before[a as int], b, x);
    lemma_pushed(before[b as int], a, x);
    lemma_resorted(space, score, both, level as int, a as int, x);
    let one = edges::resorted(space, score, both, level as int, a as int);
    assert(one.layers[level as int][b as int] == pb);
    lemma_resorted(space, score, one, level as int, b as int, x);
}

pub(crate) proof fn lemma_pushed(list: Seq<usize>, node: usize, x: usize)
    ensures
        edges::pushed_unique(list, node).contains(x) <==> list.contains(x) || x == node,
{
    let out = edges::pushed_unique(list, node);
    if list.contains(x) {
        let k = choose|k: int| 0 <= k < list.len() && list[k] == x;
        assert(out[k] == x);
    }
    if x == node && !list.contains(node) {
        assert(out[list.len() as int] == x);
    }
    if out.contains(x) && x != node {
        let k = choose|k: int| 0 <= k < out.len() && out[k] == x;
        assert(list[k] == x);
    }
}

/// A point is linked to its targets one after the other, to each of them.
pub proof fn law_points_are_linked_to_every_target<F: Fn(&[Score], &[Score]) -> Score, S: Fn(Score, usize) -> Score>(
    space: Space,
    score: F,
    allowance: S,
    floor: int,
    capping: bool,
    links: Links,
    from: int,
    targets: Seq<usize>,
)
    ensures
        filter_edges::all_edges_added(space, score, allowance, floor, capping, links, from, targets)
            == targets.fold_left(
            links,
            |so_far: Links, to: usize| edges::edge_added(space, score, allowance, floor, capping, so_far, 0, from, to),
        ),
    decreases targets.len(),
{
    if targets.len() > 0 {
        law_points_are_linked_to_every_target(
            space,
            score,
            allowance,
            floor,
            capping,
            links,
            from,
            targets.drop_last(),
        );
    }
}

} // verus!
