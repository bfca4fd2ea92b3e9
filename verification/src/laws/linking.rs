//! How nodes are linked into a graph: where greedy walks end, which candidates a new
//! node has, and what its links and those of its neighbours become.

use vstd::prelude::*;
use crate::arith;
use crate::hnsw::batch;
use crate::hnsw::batch::BatchEntry;
use crate::hnsw::descend;
use crate::hnsw::descend::Pass;
use crate::hnsw::graph;
use crate::hnsw::graph::HNSWIndex;
use crate::hnsw::insert;
use crate::hnsw::insert::Progress;
use crate::hnsw::lid;
use crate::hnsw::link;
use crate::hnsw::select;
use crate::hnsw::space;
use crate::hnsw::space::{Links, Space};
use crate::hnsw::types::{NodeCandidate, PointId};
use crate::laws::neighbours;
use crate::score;
use crate::score::Score;

verus! {

/// Whether a node is closer to a query than another.
pub open spec fn is_closer<F: Fn(&[Score], &[Score]) -> Score>(
    space: Space,
    score: F,
    query: Seq<Score>,
    a: int,
    b: int,
) -> bool {
    score::less(
        graph::order_key(space.metric, arith::measure(score, query, space.vectors[a])),
        graph::order_key(space.metric, arith::measure(score, query, space.vectors[b])),
    )
}

/// Whether a walk goes on from a node to the first of its neighbours that is not deleted
/// and closer to the query.
pub open spec fn goes_on<F: Fn(&[Score], &[Score]) -> Score>(
    space: Space,
    score: F,
    query: Seq<Score>,
    list: Seq<usize>,
    from: int,
    to: int,
) -> bool {
    exists|k: int| #[trigger]
        list[k] == to && 0 <= k < list.len() && !space.deleted[to] && is_closer(space, score, query, to, from)
            && forall|j: int|
            0 <= j < k ==> space.deleted[#[trigger] list[j] as int] || !is_closer(space, score, query, list[j] as int, from)
}

/// Whether no neighbour of a node is both not deleted and closer to the query.
pub open spec fn is_closest_around<F: Fn(&[Score], &[Score]) -> Score>(
    space: Space,
    score: F,
    query: Seq<Score>,
    list: Seq<usize>,
    node: int,
) -> bool {
    forall|j: int|
        0 <= j < list.len() ==> space.deleted[#[trigger] list[j] as int] || !is_closer(
            space,
            score,
            query,
            list[j] as int,
            node,
        )
}

/// Whether a path is a greedy walk of at most some steps: it goes on from each of its
/// nodes, and ends where no neighbour is closer or the steps are used up.
pub open spec fn is_greedy_walk<F: Fn(&[Score], &[Score]) -> Score>(
    space: Space,
    score: F,
    layer: Seq<Seq<usize>>,
    query: Seq<Score>,
    steps: nat,
    path: Seq<int>,
) -> bool {
    &&& 0 < path.len() <= steps + 1
    &&& forall|i: int, j: int|
        #![trigger path[i], path[j]]
        0 <= i < path.len() - 1 && j == i + 1 ==> goes_on(space, score, query, layer[path[i]], path[i], path[j])
    &&& path.len() == steps + 1 || is_closest_around(space, score, query, layer[path.last()], path.last())
}

proof fn lemma_first_better<F: Fn(&[Score], &[Score]) -> Score>(
    space: Space,
    score: F,
    query: Seq<Score>,
    current: int,
    list: Seq<usize>,
)
    ensures
        match descend::first_better(space, score, query, current, list) {
            Some(next) => goes_on(space, score, query, list, current, next),
            None => is_closest_around(space, score, query, list, current),
        },
    decreases list.len(),
{
    if list.len() > 0 {
        let rest = list.drop_last();
        lemma_first_better(space, score, query, current, rest);
        match descend::first_better(space, score, query, current, rest) {
            Some(next) => {
                let k = choose|k: int| #[trigger]
                    rest[k] == next && 0 <= k < rest.len() && !space.deleted[next] && is_closer(
                        space,
                        score,
                        query,
                        next,
                        current,
                    ) && forall|j: int|
                        0 <= j < k ==> space.deleted[#[trigger] rest[j] as int] || !is_closer(
                            space,
                            score,
                            query,
                            rest[j] as int,
                            current,
                        );
                assert forall|j: int| 0 <= j < k implies space.deleted[#[trigger] list[j] as int] || !is_closer(
                    space,
                    score,
                    query,
                    list[j] as int,
                    current,
                ) by {
                    assert(rest[j] == list[j]);
                }
                assert(list[k] == next);
            },
            None => {
                assert forall|j: int| 0 <= j < list.len() - 1 implies space.deleted[#[trigger] list[j] as int]
                    || !is_closer(space, score, query, list[j] as int, current) by {
                    assert(rest[j] == list[j]);
                }
                assert(list[list.len() - 1] == list.last());
            },
        }
    }
}

/// A walk through a layer goes on to closer and closer neighbours until there is none,
/// or its steps are used up.
pub proof fn law_walks_go_on_to_the_closest<F: Fn(&[Score], &[Score]) -> Score>(
    space: Space,
    score: F,
    layer: Seq<Seq<usize>>,
    query: Seq<Score>,
    current: int,
    steps: nat,
)
    ensures
        exists|path: Seq<int>| #[trigger]
            is_greedy_walk(space, score, layer, query, steps, path) && path[0] == current && path.last()
                == descend::walked(space, score, layer, query, current, steps),
    decreases steps,
{
    if steps == 0 {
        let path = seq![current];
        assert(is_greedy_walk(space, score, layer, query, steps, path));
    } else {
        lemma_first_better(space, score, query, current, layer[current]);
        match descend::first_better(space, score, query, current, layer[current]) {
            Some(next) => {
                law_walks_go_on_to_the_closest(space, score, layer, query, next, (steps - 1) as nat);
                let rest = choose|path: Seq<int>| #[trigger]
                    is_greedy_walk(space, score, layer, query, (steps - 1) as nat, path) && path[0] == next
                        && path.last() == descend::walked(space, score, layer, query, next, (steps - 1) as nat);
                let path = seq![current] + rest;
                assert(path.last() == rest.last());
                assert forall|i: int, j: int|
                    #![trigger path[i], path[j]]
                    0 <= i < path.len() - 1 && j == i + 1 implies goes_on(
                    space,
                    score,
                    query,
                    layer[path[i]],
                    path[i],
                    path[j],
                ) by {
                    if i > 0 {
                        assert(path[i] == rest[i - 1] && path[j] == rest[j - 1]);
                    }
                }
                assert(is_greedy_walk(space, score, layer, query, steps, path));
            },
            None => {
                let path = seq![current];
                assert(is_greedy_walk(space, score, layer, query, steps, path));
            },
        }
    }
}

/// Whether a greedy walk of a thousand steps at most leads through a layer from one node
/// to another; without such a layer or node, it stays where it is.
pub open spec fn leads_to<F: Fn(&[Score], &[Score]) -> Score>(
    space: Space,
    score: F,
    layers: Seq<Seq<Seq<usize>>>,
    query: Seq<Score>,
    level: int,
    from: int,
    to: int,
) -> bool {
    if level < layers.len() && from < space.vectors.len() {
        exists|path: Seq<int>| #[trigger]
            is_greedy_walk(space, score, layers[level], query, 1000, path) && path[0] == from && path.last() == to
    } else {
        to == from
    }
}

/// Whether stops are those of a descent: one for each layer, from the highest down, at
/// each of which a greedy walk ends.
pub open spec fn is_descent<F: Fn(&[Score], &[Score]) -> Score>(
    space: Space,
    score: F,
    layers: Seq<Seq<Seq<usize>>>,
    query: Seq<Score>,
    top: int,
    stops: Seq<int>,
) -> bool {
    forall|i: int, j: int|
        #![trigger stops[i], stops[j]]
        0 <= i < stops.len() - 1 && j == i + 1 ==> leads_to(space, score, layers, query, top - i, stops[i], stops[j])
}

/// A descent walks through every layer above the one that it leads to.
pub proof fn law_descents_walk_through_every_layer<F: Fn(&[Score], &[Score]) -> Score>(
    space: Space,
    score: F,
    layers: Seq<Seq<Seq<usize>>>,
    query: Seq<Score>,
    entry: int,
    top: int,
    level: int,
)
    requires
        level <= top,
    ensures
        exists|stops: Seq<int>| #[trigger]
            is_descent(space, score, layers, query, top, stops) && stops.len() == top - level + 1 && stops[0] == entry
                && stops.last() == descend::descended(space, score, layers, query, entry, top, level),
    decreases top - level,
{
    if top <= level {
        let stops = seq![entry];
        assert(is_descent(space, score, layers, query, top, stops));
    } else {
        let next = descend::greedy(space, score, layers, top, query, entry);
        if top < layers.len() && entry < space.vectors.len() {
            law_walks_go_on_to_the_closest(space, score, layers[top], query, entry, 1000);
        }
        law_descents_walk_through_every_layer(space, score, layers, query, next, top - 1, level);
        let rest = choose|stops: Seq<int>| #[trigger]
            is_descent(space, score, layers, query, top - 1, stops) && stops.len() == top - 1 - level + 1 && stops[0]
                == next && stops.last() == descend::descended(space, score, layers, query, next, top - 1, level);
        let stops = seq![entry] + rest;
        assert(stops.last() == rest.last());
        assert forall|i: int, j: int|
            #![trigger stops[i], stops[j]]
            0 <= i < stops.len() - 1 && j == i + 1 implies leads_to(
            space,
            score,
            layers,
            query,
            top - i,
            stops[i],
            stops[j],
        ) by {
            if i > 0 {
                assert(stops[i] == rest[i - 1] && stops[j] == rest[j - 1]);
                assert(top - 1 - (i - 1) == top - i);
            } else {
                assert(stops[i] == entry && stops[j] == next);
            }
        }
        assert(is_descent(space, score, layers, query, top, stops));
    }
}

proof fn lemma_pass<F: Fn(&[Score], &[Score]) -> Score, P: Fn(PointId) -> Result<bool, E>, E>(
    space: Space,
    score: F,
    passes: P,
    ids: Seq<PointId>,
    query: Seq<Score>,
    start: int,
    list: Seq<usize>,
    step: spec_fn(Pass<E>, usize) -> Pass<E>,
)
    requires
        forall|at: Pass<E>, next: usize| #[trigger]
            step(at, next) == if at.stopped || at.failed is Some || space.deleted[next as int] {
                at
            } else {
                match descend::verdict(passes, ids[next as int]) {
                    Err(e) => Pass { failed: Some(e), ..at },
                    Ok(false) => at,
                    Ok(true) => if !(0 <= at.current < space.vectors.len() && !space.deleted[at.current]) {
                        Pass { stopped: true, ..at }
                    } else if is_closer(space, score, query, next as int, at.current) {
                        Pass { current: next as int, moved: true, ..at }
                    } else {
                        at
                    },
                }
            },
    ensures
        descend::pass(space, score, passes, ids, query, start, list) == list.fold_left(
            (Pass { current: start, moved: false, stopped: false, failed: None }),
            step,
        ),
    decreases list.len(),
{
    if list.len() > 0 {
        lemma_pass(space, score, passes, ids, query, start, list.drop_last(), step);
    }
}

/// A filtered pass takes all neighbours of a node in their order. It goes to each that
/// is not deleted, is accepted, and is closer than where the pass then is; it ends where
/// it stands on a deleted node, or at the first error.
pub proof fn law_passes_take_every_neighbour<
    F: Fn(&[Score], &[Score]) -> Score,
    P: Fn(PointId) -> Result<bool, E>,
    E,
>(space: Space, score: F, passes: P, ids: Seq<PointId>, query: Seq<Score>, start: int, list: Seq<usize>)
    ensures
        descend::pass(space, score, passes, ids, query, start, list) == list.fold_left(
            (Pass { current: start, moved: false, stopped: false, failed: None }),
            |at: Pass<E>, next: usize|
                if at.stopped || at.failed is Some || space.deleted[next as int] {
                    at
                } else {
                    match descend::verdict(passes, ids[next as int]) {
                        Err(e) => Pass { failed: Some(e), ..at },
                        Ok(false) => at,
                        Ok(true) => if !(0 <= at.current < space.vectors.len() && !space.deleted[at.current]) {
                            Pass { stopped: true, ..at }
                        } else if is_closer(space, score, query, next as int, at.current) {
                            Pass { current: next as int, moved: true, ..at }
                        } else {
                            at
                        },
                    }
                },
        ),
{
    lemma_pass(
        space,
        score,
        passes,
        ids,
        query,
        start,
        list,
        |at: Pass<E>, next: usize|
            if at.stopped || at.failed is Some || space.deleted[next as int] {
                at
            } else {
                match descend::verdict(passes, ids[next as int]) {
                    Err(e) => Pass { failed: Some(e), ..at },
                    Ok(false) => at,
                    Ok(true) => if !(0 <= at.current < space.vectors.len() && !space.deleted[at.current]) {
                        Pass { stopped: true, ..at }
                    } else if is_closer(space, score, query, next as int, at.current) {
                        Pass { current: next as int, moved: true, ..at }
                    } else {
                        at
                    },
                }
            },
    );
}

/// Whether a filtered pass through the neighbours of a node moves on to another.
pub open spec fn passes_on<F: Fn(&[Score], &[Score]) -> Score, P: Fn(PointId) -> Result<bool, E>, E>(
    space: Space,
    score: F,
    passes: P,
    ids: Seq<PointId>,
    layer: Seq<Seq<usize>>,
    query: Seq<Score>,
    from: int,
    to: int,
) -> bool {
    let end = descend::pass(space, score, passes, ids, query, from, layer[from]);
    from < space.vectors.len() && end.failed is None && end.moved && end.current == to
}

/// Whether a path is one of passes: each of its nodes but the last is left by a pass
/// through its neighbours that moves on to the next.
pub open spec fn is_path_of_passes<F: Fn(&[Score], &[Score]) -> Score, P: Fn(PointId) -> Result<bool, E>, E>(
    space: Space,
    score: F,
    passes: P,
    ids: Seq<PointId>,
    layer: Seq<Seq<usize>>,
    query: Seq<Score>,
    path: Seq<int>,
) -> bool {
    &&& path.len() > 0
    &&& forall|i: int, j: int|
        #![trigger path[i], path[j]]
        0 <= i < path.len() - 1 && j == i + 1 ==> passes_on(
            space,
            score,
            passes,
            ids,
            layer,
            query,
            path[i],
            path[j],
        )
}

/// Filtered passes go on, one from where the other ended, until one does not move, fails,
/// or there were as many as allowed.
pub proof fn law_passes_go_on_until_none_moves<
    F: Fn(&[Score], &[Score]) -> Score,
    P: Fn(PointId) -> Result<bool, E>,
    E,
>(
    space: Space,
    score: F,
    passes: P,
    ids: Seq<PointId>,
    layers: Seq<Seq<Seq<usize>>>,
    level: int,
    query: Seq<Score>,
    current: int,
    steps: nat,
)
    requires
        level < layers.len(),
    ensures
        exists|path: Seq<int>| #[trigger]
            is_path_of_passes(space, score, passes, ids, layers[level], query, path) && path[0] == current && path.len()
                <= steps + 1 && {
                let last = path.last();
                let end = descend::pass(space, score, passes, ids, query, last, layers[level][last]);
                match descend::passed(space, score, passes, ids, layers, level, query, current, steps) {
                    Ok(node) => if path.len() == steps + 1 || last >= space.vectors.len() {
                        node == last
                    } else {
                        end.failed is None && !end.moved && node == end.current
                    },
                    Err(e) => end.failed == Some(e),
                }
            },
    decreases steps,
{
    let layer = layers[level];
    if steps == 0 || current >= space.vectors.len() {
        let path = seq![current];
        assert(is_path_of_passes(space, score, passes, ids, layer, query, path));
    } else {
        let end = descend::pass(space, score, passes, ids, query, current, layer[current]);
        if end.failed is Some || !end.moved {
            let path = seq![current];
            assert(is_path_of_passes(space, score, passes, ids, layer, query, path));
            assert(path.last() == current);
        } else {
            law_passes_go_on_until_none_moves(
                space,
                score,
                passes,
                ids,
                layers,
                level,
                query,
                end.current,
                (steps - 1) as nat,
            );
            let rest = choose|path: Seq<int>| #[trigger]
                is_path_of_passes(space, score, passes, ids, layer, query, path) && path[0] == end.current
                    && path.len() <= (steps - 1) as nat + 1 && {
                    let last = path.last();
                    let stop = descend::pass(space, score, passes, ids, query, last, layers[level][last]);
                    match descend::passed(
                        space,
                        score,
                        passes,
                        ids,
                        layers,
                        level,
                        query,
                        end.current,
                        (steps - 1) as nat,
                    ) {
                        Ok(node) => if path.len() == (steps - 1) as nat + 1 || last >= space.vectors.len() {
                            node == last
                        } else {
                            stop.failed is None && !stop.moved && node == stop.current
                        },
                        Err(e) => stop.failed == Some(e),
                    }
                };
            let path = seq![current] + rest;
            assert(path.last() == rest.last());
            assert forall|i: int, j: int|
                #![trigger path[i], path[j]]
                0 <= i < path.len() - 1 && j == i + 1 implies passes_on(
                space,
                score,
                passes,
                ids,
                layer,
                query,
                path[i],
                path[j],
            ) by {
                if i > 0 {
                    assert(path[i] == rest[i - 1] && path[j] == rest[j - 1]);
                }
            }
            assert(is_path_of_passes(space, score, passes, ids, layer, query, path));
        }
    }
}

/// Whether a node is a neighbour, in a layer, of one of the bases, and can be a candidate
/// for another node: it is not deleted and not that node.
pub open spec fn is_around(
    space: Space,
    links: Links,
    level: int,
    node: int,
    bases: Seq<NodeCandidate>,
    x: usize,
) -> bool {
    &&& !space.deleted[x as int]
    &&& x != node
    &&& exists|b: int|
        0 <= b < bases.len() && (#[trigger] bases[b]).idx < links.layers[level].len()
            && links.layers[level][bases[b].idx as int].contains(x)
}

/// Whether one of the candidates is a node.
pub open spec fn among(candidates: Seq<NodeCandidate>, x: usize) -> bool {
    exists|k: int| 0 <= k < candidates.len() && (#[trigger] candidates[k]).idx == x
}

proof fn lemma_among(candidates: Seq<NodeCandidate>, x: usize)
    ensures
        link::candidate_nodes(candidates).contains(x) <==> among(candidates, x),
{
    let nodes = link::candidate_nodes(candidates);
    if nodes.contains(x) {
        let k = choose|k: int| 0 <= k < nodes.len() && nodes[k] == x;
        assert(candidates[k].idx == x);
    }
    if among(candidates, x) {
        let k = choose|k: int| 0 <= k < candidates.len() && (#[trigger] candidates[k]).idx == x;
        assert(nodes[k] == x);
    }
}

proof fn lemma_among_pushed(candidates: Seq<NodeCandidate>, c: NodeCandidate, x: usize)
    ensures
        among(candidates.push(c), x) <==> among(candidates, x) || c.idx == x,
{
    let all = candidates.push(c);
    if among(all, x) {
        let k = choose|k: int| 0 <= k < all.len() && (#[trigger] all[k]).idx == x;
        if k < candidates.len() {
            assert(candidates[k].idx == x);
        }
    }
    if among(candidates, x) {
        let k = choose|k: int| 0 <= k < candidates.len() && (#[trigger] candidates[k]).idx == x;
        assert(all[k].idx == x);
    }
    if c.idx == x {
        assert(all[candidates.len() as int].idx == x);
    }
}

proof fn lemma_extended_by_list<F: Fn(&[Score], &[Score]) -> Score>(
    space: Space,
    score: F,
    node: int,
    found: Seq<NodeCandidate>,
    list: Seq<usize>,
    x: usize,
)
    ensures
        among(link::extended_by_list(space, score, node, found, list), x) <==> among(found, x) || (list.contains(x)
            && !space.deleted[x as int] && x != node),
    decreases list.len(),
{
    if list.len() > 0 {
        let rest = list.drop_last();
        let before = link::extended_by_list(space, score, node, found, rest);
        lemma_extended_by_list(space, score, node, found, rest, x);
        lemma_among(before, x);
        lemma_among_pushed(before, space.candidate(score, node, list.last()), x);
        if list.contains(x) {
            let k = choose|k: int| 0 <= k < list.len() && list[k] == x;
            if k < rest.len() {
                assert(rest[k] == x);
            }
        }
        if rest.contains(x) {
            let k = choose|k: int| 0 <= k < rest.len() && rest[k] == x;
            assert(list[k] == x);
        }
        assert(list[list.len() - 1] == list.last());
    }
}

proof fn lemma_extended_by_bases<F: Fn(&[Score], &[Score]) -> Score>(
    space: Space,
    score: F,
    links: Links,
    level: int,
    node: int,
    found: Seq<NodeCandidate>,
    bases: Seq<NodeCandidate>,
    x: usize,
)
    ensures
        among(link::extended_by_bases(space, score, links, level, node, found, bases), x) <==> among(found, x)
            || is_around(space, links, level, node, bases, x),
    decreases bases.len(),
{
    if bases.len() > 0 {
        let rest = bases.drop_last();
        let before = link::extended_by_bases(space, score, links, level, node, found, rest);
        let last = bases.last().idx;
        let list = if last < links.layers[level].len() {
            links.layers[level][last as int]
        } else {
            Seq::empty()
        };
        lemma_extended_by_bases(space, score, links, level, node, found, rest, x);
        lemma_extended_by_list(space, score, node, before, list, x);
        if is_around(space, links, level, node, bases, x) {
            let b = choose|b: int|
                0 <= b < bases.len() && (#[trigger] bases[b]).idx < links.layers[level].len()
                    && links.layers[level][bases[b].idx as int].contains(x);
            if b < rest.len() {
                assert(rest[b] == bases[b]);
            }
        }
        if is_around(space, links, level, node, rest, x) {
            let b = choose|b: int|
                0 <= b < rest.len() && (#[trigger] rest[b]).idx < links.layers[level].len()
                    && links.layers[level][rest[b].idx as int].contains(x);
            assert(rest[b] == bases[b]);
        }
        assert(bases[bases.len() - 1] == bases.last());
    }
}

proof fn lemma_sorted_among(candidates: Seq<NodeCandidate>, x: usize)
    requires
        candidates.len() <= u64::MAX,
    ensures
        among(space::sorted_candidates(candidates), x) <==> among(candidates, x),
{
    let sorted = space::sorted_candidates(candidates);
    space::law_sorted_candidates(candidates);
    if among(sorted, x) {
        let k = choose|k: int| 0 <= k < sorted.len() && (#[trigger] sorted[k]).idx == x;
        assert(candidates.contains(sorted[k]));
        let j = choose|j: int| 0 <= j < candidates.len() && candidates[j] == sorted[k];
        assert(candidates[j].idx == x);
    }
    if among(candidates, x) {
        let k = choose|k: int| 0 <= k < candidates.len() && (#[trigger] candidates[k]).idx == x;
        assert(sorted.contains(candidates[k]));
        let j = choose|j: int| 0 <= j < sorted.len() && sorted[j] == candidates[k];
        assert(sorted[j].idx == x);
    }
}

/// The candidates of a new node are those that were found and all neighbours of the
/// first of them, as many as the node gets neighbours.
pub proof fn law_candidates_extend_to_neighbours<F: Fn(&[Score], &[Score]) -> Score>(
    space: Space,
    score: F,
    links: Links,
    level: int,
    node: int,
    candidates: Seq<NodeCandidate>,
    x: usize,
)
    requires
        space.m0 >= 0,
        space.m >= 0,
        link::extended_by_bases(
            space,
            score,
            links,
            level,
            node,
            candidates,
            candidates.take(
                if space.width(level) < candidates.len() {
                    space.width(level)
                } else {
                    candidates.len() as int
                },
            ),
        ).len() <= u64::MAX,
    ensures
        ({
            let width = if level == 0 {
                space.m0
            } else {
                space.m
            };
            let bases = candidates.take(
                if width < candidates.len() {
                    width
                } else {
                    candidates.len() as int
                },
            );
            among(link::extended(space, score, links, level, node, candidates), x) <==> among(candidates, x)
                || is_around(space, links, level, node, bases, x)
        }),
{
    let bases = candidates.take(
        if space.width(level) < candidates.len() {
            space.width(level)
        } else {
            candidates.len() as int
        },
    );
    lemma_extended_by_bases(space, score, links, level, node, candidates, bases, x);
    lemma_sorted_among(link::extended_by_bases(space, score, links, level, node, candidates, bases), x);
}

/// Whether a neighbour goes before a new one in a node's list: it is deleted, or it is
/// as close or closer.
pub open spec fn goes_before<F: Fn(&[Score], &[Score]) -> Score>(
    space: Space,
    score: F,
    node: int,
    other: usize,
    new: usize,
) -> bool {
    let a = graph::order_key(space.metric, arith::measure(score, space.vectors[node], space.vectors[other as int]));
    let b = graph::order_key(space.metric, arith::measure(score, space.vectors[node], space.vectors[new as int]));
    other < space.vectors.len() && !space.deleted[other as int] ==> !score::nan(a) && !score::nan(b)
        && score::value_key(a) <= score::value_key(b)
}

/// Whether a new neighbour belongs at a place of a node's list: all before it go before
/// it, and the one behind it does not.
pub open spec fn belongs_at<F: Fn(&[Score], &[Score]) -> Score>(
    space: Space,
    score: F,
    node: int,
    list: Seq<usize>,
    new: usize,
    at: int,
) -> bool {
    &&& 0 <= at <= list.len()
    &&& forall|k: int| 0 <= k < at ==> goes_before(space, score, node, #[trigger] list[k], new)
    &&& at < list.len() ==> !goes_before(space, score, node, list[at], new)
}

proof fn lemma_entry<F: Fn(&[Score], &[Score]) -> Score>(
    space: Space,
    score: F,
    node: int,
    list: Seq<usize>,
    new: usize,
)
    ensures
        belongs_at(
            space,
            score,
            node,
            list,
            new,
            link::entry_position(space, score, node, list, space.key(score, node, new as int)),
        ),
    decreases list.len(),
{
    if list.len() > 0 {
        let rest = list.drop_last();
        lemma_entry(space, score, node, rest, new);
        let key = space.key(score, node, new as int);
        let before = link::entry_position(space, score, node, rest, key);
        let at = link::entry_position(space, score, node, list, key);
        assert forall|k: int| 0 <= k < at implies goes_before(space, score, node, #[trigger] list[k], new) by {
            if k < before {
                assert(rest[k] == list[k]);
            }
        }
        if at < list.len() - 1 {
            assert(rest[at] == list[at]);
        }
    }
}

/// The nodes of a list as candidates for the neighbours of a node.
pub open spec fn as_candidates<F: Fn(&[Score], &[Score]) -> Score>(
    space: Space,
    score: F,
    node: int,
    list: Seq<usize>,
) -> Seq<NodeCandidate> {
    list.map_values(
        |to: usize|
            {
                let raw = arith::measure(score, space.vectors[node], space.vectors[to as int]);
                NodeCandidate { idx: to, raw_score: raw, sort_key: graph::order_key(space.metric, raw) }
            },
    )
}

/// What a list becomes where it is cut to the capacity of its layer: it stays where it
/// is not longer; else as many neighbours are selected from it, taken by their keys.
pub open spec fn cut<F: Fn(&[Score], &[Score]) -> Score, S: Fn(Score, usize) -> Score>(
    space: Space,
    score: F,
    allowance: S,
    floor: int,
    capping: bool,
    level: usize,
    node: int,
    list: Seq<usize>,
) -> Seq<usize> {
    let capacity = if level == 0 {
        space.stored_cap_l0 + 1
    } else {
        space.m + 1
    };
    if !capping || list.len() <= capacity {
        list
    } else {
        select::selected(
            space,
            score,
            allowance,
            level,
            floor,
            capacity,
            space::sorted_candidates(as_candidates(space, score, node, list)),
        )
    }
}

proof fn lemma_capped<F: Fn(&[Score], &[Score]) -> Score, S: Fn(Score, usize) -> Score>(
    space: Space,
    score: F,
    allowance: S,
    floor: int,
    links: Links,
    level: usize,
    node: int,
)
    requires
        level < links.layers.len(),
        0 <= node < links.layers[level as int].len(),
        node < links.dists.len(),
    ensures
        ({
            let after = link::capped(space, score, allowance, floor, links, level, node);
            &&& after.layers == links.layers.update(
                level as int,
                links.layers[level as int].update(
                    node,
                    cut(space, score, allowance, floor, true, level, node, links.layers[level as int][node]),
                ),
            )
            &&& after.dists.len() == links.dists.len()
            &&& forall|n: int|
                0 <= n < links.dists.len() && (n != node || level != 0) ==> (#[trigger] after.dists[n])
                    == links.dists[n]
            &&& level == 0 && links.dists[node] == space.row(
                score,
                node,
                links.layers[0][node],
            ) ==> after.dists[node] == space.row(score, node, after.layers[0][node])
        }),
{
    let list = links.layers[level as int][node];
    let after = link::capped(space, score, allowance, floor, links, level, node);
    let kept = cut(space, score, allowance, floor, true, level, node, list);
    assert(Seq::new(list.len(), |k: int| space.candidate(score, node, list[k])) =~= as_candidates(
        space,
        score,
        node,
        list,
    ));
    let updated = links.layers.update(level as int, links.layers[level as int].update(node, kept));
    if list.len() <= space.capacity(level as int) {
        assert(links.layers[level as int].update(node, list) =~= links.layers[level as int]);
        assert(updated =~= links.layers);
    }
    assert(after.layers =~= updated);
}

/// Whether a neighbour's list has taken a new node in: it stands where it belongs, and
/// the list is then cut to the capacity of its layer where that is wanted.
pub open spec fn has_taken_in<F: Fn(&[Score], &[Score]) -> Score, S: Fn(Score, usize) -> Score>(
    space: Space,
    score: F,
    allowance: S,
    floor: int,
    capping: bool,
    level: usize,
    node: int,
    before: Seq<usize>,
    new: usize,
    after: Seq<usize>,
) -> bool {
    exists|at: int| #[trigger]
        belongs_at(space, score, node, before, new, at) && after == cut(
            space,
            score,
            allowance,
            floor,
            capping,
            level,
            node,
            before.insert(at, new),
        )
}

/// Whether the scores that are kept of a node's neighbours in the lowest layer are
/// theirs: zero for the node itself.
pub open spec fn has_its_scores<F: Fn(&[Score], &[Score]) -> Score>(
    space: Space,
    score: F,
    links: Links,
    node: int,
) -> bool {
    let list = links.layers[0][node];
    &&& links.dists[node].len() == list.len()
    &&& forall|k: int|
        0 <= k < list.len() ==> (#[trigger] links.dists[node][k]) == if list[k] == node {
            0
        } else {
            arith::measure(score, space.vectors[node], space.vectors[list[k] as int])
        }
}

#[verifier::spinoff_prover]
proof fn lemma_back_linked_all<F: Fn(&[Score], &[Score]) -> Score, S: Fn(Score, usize) -> Score>(
    space: Space,
    score: F,
    allowance: S,
    floor: int,
    capping: bool,
    links: Links,
    level: usize,
    neighbors: Seq<usize>,
    new: usize,
)
    requires
        level < links.layers.len(),
        links.dists.len() == links.layers[level as int].len(),
        neighbors.no_duplicates(),
        forall|k: int|
            0 <= k < neighbors.len() ==> (#[trigger] neighbors[k]) < links.layers[level as int].len() && space.live(
                neighbors[k] as int,
            ),
    ensures
        ({
            let after = link::back_linked_all(space, score, allowance, floor, capping, links, level, neighbors, new);
            &&& after.layers.len() == links.layers.len()
            &&& after.dists.len() == links.dists.len()
            &&& forall|l: int| 0 <= l < links.layers.len() && l != level ==> (#[trigger] after.layers[l]) == links.layers[l]
            &&& after.layers[level as int].len() == links.layers[level as int].len()
            &&& forall|n: usize|
                0 <= n < links.layers[level as int].len() && !neighbors.contains(n) ==> (
                #[trigger] after.layers[level as int][n as int]) == links.layers[level as int][n as int] && after.dists[n as int]
                    == links.dists[n as int]
            &&& forall|n: usize|
                0 <= n < links.layers[level as int].len() && neighbors.contains(n) ==> has_taken_in(
                    space,
                    score,
                    allowance,
                    floor,
                    capping,
                    level,
                    n as int,
                    links.layers[level as int][n as int],
                    new,
                    #[trigger] after.layers[level as int][n as int],
                ) && (level == 0 ==> has_its_scores(space, score, after, n as int))
        }),
    decreases neighbors.len(),
{
    if neighbors.len() > 0 {
        let rest = neighbors.drop_last();
        assert forall|k: int| 0 <= k < rest.len() implies (#[trigger] rest[k]) < links.layers[level as int].len()
            && space.live(rest[k] as int) by {
            assert(rest[k] == neighbors[k]);
        }
        lemma_back_linked_all(space, score, allowance, floor, capping, links, level, rest, new);
        let before = link::back_linked_all(space, score, allowance, floor, capping, links, level, rest, new);
        let node = neighbors.last() as int;
        assert(neighbors[neighbors.len() - 1] == node);
        assert(!rest.contains(node as usize)) by {
            if rest.contains(node as usize) {
                let k = choose|k: int| 0 <= k < rest.len() && rest[k] == node;
                assert(neighbors[k] == neighbors[neighbors.len() - 1]);
            }
        }
        let list = links.layers[level as int][node];
        assert(before.layers[level as int][node] == list);
        lemma_entry(space, score, node, list, new);
        let at = link::entry_position(space, score, node, list, space.key(score, node, new as int));
        let linked = link::back_linked(space, score, before, level as int, node, new);
        assert(linked.layers[level as int][node] == list.insert(at, new));
        lemma_capped(space, score, allowance, floor, linked, level, node);
        let after = link::back_linked_all(space, score, allowance, floor, capping, links, level, neighbors, new);
        assert(after.layers[level as int][node] == cut(
            space,
            score,
            allowance,
            floor,
            capping,
            level,
            node,
            list.insert(at, new),
        ));
        assert(level == 0 ==> after.dists[node] == space.row(score, node, after.layers[0][node]));
        assert(linked.dists.len() == before.dists.len());
        assert(after.dists.len() == links.dists.len());
        assert(after.layers.len() == links.layers.len());
        assert(after.layers[level as int].len() == links.layers[level as int].len());
        assert forall|l: int| 0 <= l < links.layers.len() && l != level implies (#[trigger] after.layers[l])
            == links.layers[l] by {
            assert(before.layers[l] == links.layers[l]);
            assert(linked.layers[l] == before.layers[l]);
        }
        assert forall|n: usize|
            0 <= n < links.layers[level as int].len() && !neighbors.contains(n) implies (
        #[trigger] after.layers[level as int][n as int]) == links.layers[level as int][n as int] && after.dists[n as int]
            == links.dists[n as int] by {
            if rest.contains(n) {
                let k = choose|k: int| 0 <= k < rest.len() && rest[k] == n;
                assert(neighbors[k] == n);
            }
            if n == node {
                assert(neighbors[neighbors.len() - 1] == n);
            }
            assert(before.layers[level as int][n as int] == links.layers[level as int][n as int]);
        }
        assert forall|n: usize|
            0 <= n < links.layers[level as int].len() && neighbors.contains(n) implies has_taken_in(
            space,
            score,
            allowance,
            floor,
            capping,
            level,
            n as int,
            links.layers[level as int][n as int],
            new,
            #[trigger] after.layers[level as int][n as int],
        ) && (level == 0 ==> has_its_scores(space, score, after, n as int)) by {
            if n == node {
                assert(belongs_at(space, score, node, list, new, at));
            } else {
                let k = choose|k: int| 0 <= k < neighbors.len() && neighbors[k] == n;
                assert(k < rest.len());
                assert(rest[k] == n);
                assert(rest.contains(n));
                assert(after.layers[level as int][n as int] == before.layers[level as int][n as int]);
                assert(after.dists[n as int] == before.dists[n as int]);
            }
        }
    }
}

/// Whether a node is another than one.
pub open spec fn other_than(node: usize) -> spec_fn(usize) -> bool {
    |n: usize| n != node
}

proof fn lemma_led_by(node: usize, neighbors: Seq<usize>)
    ensures
        link::led_by(node, neighbors) == seq![node] + neighbors.filter(other_than(node)),
    decreases neighbors.len(),
{
    reveal(Seq::filter);
    if neighbors.len() == 0 {
        assert(link::led_by(node, neighbors) =~= seq![node] + neighbors.filter(other_than(node)));
    } else {
        lemma_led_by(node, neighbors.drop_last());
        let before = neighbors.drop_last().filter(other_than(node));
        assert((seq![node] + before).push(neighbors.last()) =~= seq![node] + before.push(neighbors.last()));
    }
}

/// A node that is linked into a layer has itself and all its neighbours in its list
/// there; each of them takes it into its own list; all other lists stay as they are.
pub proof fn law_linking_goes_both_ways<F: Fn(&[Score], &[Score]) -> Score, S: Fn(Score, usize) -> Score>(
    space: Space,
    score: F,
    allowance: S,
    floor: int,
    capping_own: bool,
    capping: bool,
    links: Links,
    level: usize,
    node: usize,
    neighbors: Seq<usize>,
)
    requires
        level < links.layers.len(),
        node < links.layers[level as int].len(),
        links.dists.len() == links.layers[level as int].len(),
        neighbors.no_duplicates(),
        !neighbors.contains(node),
        forall|k: int|
            0 <= k < neighbors.len() ==> (#[trigger] neighbors[k]) < links.layers[level as int].len() && space.live(
                neighbors[k] as int,
            ),
    ensures
        ({
            let after = link::layer_linked(
                space,
                score,
                allowance,
                floor,
                capping_own,
                capping,
                links,
                level,
                node,
                neighbors,
            );
            &&& after.layers[level as int][node as int] == cut(
                space,
                score,
                allowance,
                floor,
                capping_own,
                level,
                node as int,
                seq![node] + neighbors,
            )
            &&& level == 0 ==> has_its_scores(space, score, after, node as int)
            &&& forall|n: usize|
                n < links.layers[level as int].len() && neighbors.contains(n) ==> has_taken_in(
                    space,
                    score,
                    allowance,
                    floor,
                    capping,
                    level,
                    n as int,
                    links.layers[level as int][n as int],
                    node,
                    #[trigger] after.layers[level as int][n as int],
                ) && (level == 0 ==> has_its_scores(space, score, after, n as int))
            &&& forall|n: usize|
                n < links.layers[level as int].len() && n != node && !neighbors.contains(n) ==> (
                #[trigger] after.layers[level as int][n as int]) == links.layers[level as int][n as int]
                    && after.dists[n as int] == links.dists[n as int]
            &&& after.layers.len() == links.layers.len()
            &&& forall|l: int| 0 <= l < links.layers.len() && l != level ==> (#[trigger] after.layers[l]) == links.layers[l]
        }),
{
    lemma_led_by(node, neighbors);
    assert(neighbors.filter(other_than(node)) =~= neighbors) by {
        lemma_filter_all(neighbors, other_than(node));
    }
    let led = link::led_by(node, neighbors);
    let own = space::scored(
        space,
        score,
        links.with_list(level as int, node as int, led),
        level as int,
        node as int,
    );
    assert(own.layers[level as int][node as int] == led);
    lemma_capped(space, score, allowance, floor, own, level, node as int);
    let kept = if capping_own {
        link::capped(space, score, allowance, floor, own, level, node as int)
    } else {
        own
    };
    assert(kept.layers[level as int].len() == links.layers[level as int].len());
    lemma_back_linked_all(space, score, allowance, floor, capping, kept, level, neighbors, node);
    let after = link::layer_linked(
        space,
        score,
        allowance,
        floor,
        capping_own,
        capping,
        links,
        level,
        node,
        neighbors,
    );
    assert(after.layers[level as int][node as int] == kept.layers[level as int][node as int]);
    assert(after.dists[node as int] == kept.dists[node as int]);
    assert(level == 0 ==> own.dists[node as int] == space.row(score, node as int, led));
    assert forall|n: usize| n < links.layers[level as int].len() && neighbors.contains(n) implies has_taken_in(
        space,
        score,
        allowance,
        floor,
        capping,
        level,
        n as int,
        links.layers[level as int][n as int],
        node,
        #[trigger] after.layers[level as int][n as int],
    ) && (level == 0 ==> has_its_scores(space, score, after, n as int)) by {
        assert(kept.layers[level as int][n as int] == links.layers[level as int][n as int]);
    }
    assert forall|n: usize|
        n < links.layers[level as int].len() && n != node && !neighbors.contains(n) implies (
    #[trigger] after.layers[level as int][n as int]) == links.layers[level as int][n as int]
        && after.dists[n as int] == links.dists[n as int] by {
        assert(after.layers[level as int][n as int] == kept.layers[level as int][n as int]);
        assert(after.dists[n as int] == kept.dists[n as int]);
        assert(own.layers[level as int][n as int] == links.layers[level as int][n as int]);
        assert(own.dists[n as int] == links.dists[n as int]);
        assert(kept.layers[level as int][n as int] == own.layers[level as int][n as int]);
        assert(kept.dists[n as int] == own.dists[n as int]);
    }
    assert forall|l: int| 0 <= l < links.layers.len() && l != level implies (#[trigger] after.layers[l])
        == links.layers[l] by {
        assert(kept.layers[l] == links.layers[l]);
    }
}

proof fn lemma_filter_all<A>(all: Seq<A>, keep: spec_fn(A) -> bool)
    requires
        forall|k: int| 0 <= k < all.len() ==> keep(#[trigger] all[k]),
    ensures
        all.filter(keep) == all,
    decreases all.len(),
{
    reveal(Seq::filter);
    if all.len() > 0 {
        let rest = all.drop_last();
        assert forall|k: int| 0 <= k < rest.len() implies keep(#[trigger] rest[k]) by {
            assert(rest[k] == all[k]);
        }
        lemma_filter_all(rest, keep);
        assert(keep(all[all.len() - 1]));
        assert(rest.push(all.last()) =~= all);
    } else {
        assert(all.filter(keep) =~= all);
    }
}

/// Whether a node is linked into one more layer: neighbours are chosen for it from what
/// was found there, it is linked to them, and the first of them is where the layer below
/// is entered.
pub open spec fn links_next_layer<F: Fn(&[Score], &[Score]) -> Score, S: Fn(Score, usize) -> Score>(
    space: Space,
    score: F,
    allowance: S,
    floor: int,
    capping_own: bool,
    capping: bool,
    node: usize,
    level: usize,
    found: Seq<NodeCandidate>,
    before: Progress,
    after: Progress,
) -> bool {
    let neighbors = link::layer_choice(space, score, allowance, floor, before.links, level, node, found);
    &&& after.links == link::layer_linked(
        space,
        score,
        allowance,
        floor,
        capping_own,
        capping,
        before.links,
        level,
        node,
        neighbors,
    )
    &&& neighbors.len() > 0 ==> after.entry == neighbors[0]
    &&& neighbors.len() == 0 ==> after.entry == before.entry
}

/// Whether stages are those of a node's linking: one layer after the other, from its
/// level down to the lowest, each by what a search of it may find from where the layer
/// above led.
pub open spec fn is_linking<F: Fn(&[Score], &[Score]) -> Score, S: Fn(Score, usize) -> Score>(
    space: Space,
    score: F,
    allowance: S,
    floor: int,
    capping_own: bool,
    capping: bool,
    node: usize,
    level: int,
    ef: usize,
    found: Seq<Seq<NodeCandidate>>,
    stages: Seq<Progress>,
) -> bool {
    &&& stages.len() == level + 2
    &&& found.len() == level + 1
    &&& forall|i: int, j: int|
        #![trigger stages[i], stages[j]]
        0 <= i <= level && j == i + 1 ==> links_next_layer(
            space,
            score,
            allowance,
            floor,
            capping_own,
            capping,
            node,
            (level - i) as usize,
            found[i],
            stages[i],
            stages[j],
        )
    &&& forall|i: int|
        0 <= i <= level ==> insert::finds(
            space,
            score,
            ef,
            (#[trigger] stages[i]).links,
            node,
            stages[i].entry,
            level - i,
            found[i],
        )
}

proof fn lemma_stages<F: Fn(&[Score], &[Score]) -> Score, S: Fn(Score, usize) -> Score>(
    space: Space,
    score: F,
    allowance: S,
    floor: int,
    capping_own: bool,
    capping: bool,
    start: Progress,
    node: usize,
    level: int,
    ef: usize,
    found: Seq<Seq<NodeCandidate>>,
) -> (stages: Seq<Progress>)
    requires
        insert::all_found(space, score, allowance, floor, capping_own, capping, start, node, level, ef, found),
    ensures
        stages.len() == found.len() + 1,
        stages[0] == start,
        stages.last() == insert::linked_down(
            space,
            score,
            allowance,
            floor,
            capping_own,
            capping,
            start,
            node,
            level,
            found,
        ),
        forall|i: int, j: int|
            #![trigger stages[i], stages[j]]
            0 <= i < found.len() && j == i + 1 ==> links_next_layer(
                space,
                score,
                allowance,
                floor,
                capping_own,
                capping,
                node,
                (level - i) as usize,
                found[i],
                stages[i],
                stages[j],
            ),
        forall|i: int|
            0 <= i < found.len() ==> insert::finds(
                space,
                score,
                ef,
                (#[trigger] stages[i]).links,
                node,
                stages[i].entry,
                level - i,
                found[i],
            ),
    decreases found.len(),
{
    if found.len() == 0 {
        seq![start]
    } else {
        let rest = found.drop_last();
        let before = lemma_stages(
            space,
            score,
            allowance,
            floor,
            capping_own,
            capping,
            start,
            node,
            level,
            ef,
            rest,
        );
        let last = insert::linked_down(
            space,
            score,
            allowance,
            floor,
            capping_own,
            capping,
            start,
            node,
            level,
            found,
        );
        let stages = before.push(last);
        assert forall|i: int, j: int|
            #![trigger stages[i], stages[j]]
            0 <= i < found.len() && j == i + 1 implies links_next_layer(
            space,
            score,
            allowance,
            floor,
            capping_own,
            capping,
            node,
            (level - i) as usize,
            found[i],
            stages[i],
            stages[j],
        ) by {
            if j < before.len() {
                assert(stages[i] == before[i] && stages[j] == before[j] && rest[i] == found[i]);
            } else {
                assert(stages[i] == before.last());
            }
        }
        assert forall|i: int| 0 <= i < found.len() implies insert::finds(
            space,
            score,
            ef,
            (#[trigger] stages[i]).links,
            node,
            stages[i].entry,
            level - i,
            found[i],
        ) by {
            if i < rest.len() {
                assert(stages[i] == before[i] && rest[i] == found[i]);
            } else {
                assert(stages[i] == before.last());
            }
        }
        stages
    }
}

/// A node is linked into every layer up to its level, one after the other from its level
/// down.
pub proof fn law_nodes_are_linked_in_every_layer<
    F: Fn(&[Score], &[Score]) -> Score,
    S: Fn(Score, usize) -> Score,
>(
    space: Space,
    score: F,
    allowance: S,
    floor: int,
    capping_own: bool,
    capping: bool,
    start: Progress,
    node: usize,
    level: int,
    ef: usize,
    after: Links,
)
    requires
        level >= 0,
        insert::may_link(
            space,
            score,
            allowance,
            floor,
            capping_own,
            capping,
            start,
            node,
            level,
            ef,
            after,
        ),
    ensures
        exists|found: Seq<Seq<NodeCandidate>>, stages: Seq<Progress>| #[trigger]
            is_linking(
                space,
                score,
                allowance,
                floor,
                capping_own,
                capping,
                node,
                level,
                ef,
                found,
                stages,
            ) && stages[0] == start && stages.last().links == after,
{
    let found = choose|found: Seq<Seq<NodeCandidate>>|
        found.len() == level + 1 && #[trigger] insert::all_found(
            space,
            score,
            allowance,
            floor,
            capping_own,
            capping,
            start,
            node,
            level,
            ef,
            found,
        ) && after == insert::linked_down(
            space,
            score,
            allowance,
            floor,
            capping_own,
            capping,
            start,
            node,
            level,
            found,
        ).links;
    let stages = lemma_stages(
        space,
        score,
        allowance,
        floor,
        capping_own,
        capping,
        start,
        node,
        level,
        ef,
        found,
    );
    assert(is_linking(space, score, allowance, floor, capping_own, capping, node, level, ef, found, stages));
}

/// Whether stages are those of the linking of a batch's nodes, one after the other.
pub open spec fn is_batch_linking<F: Fn(&[Score], &[Score]) -> Score, S: Fn(Score, usize) -> Score>(
    space: Space,
    score: F,
    allowance: S,
    floor: int,
    capping: bool,
    entry: int,
    top: int,
    levels: Seq<u8>,
    ef: usize,
    lo: int,
    stages: Seq<Links>,
) -> bool {
    forall|i: int, j: int|
        #![trigger stages[i], stages[j]]
        0 <= i < stages.len() - 1 && j == i + 1 ==> batch::may_link_from(
            space,
            score,
            allowance,
            floor,
            capping,
            entry,
            top,
            (lo + i) as usize,
            levels[lo + i] as int,
            ef,
            stages[i],
            stages[j],
        )
}

/// Every new node of a batch is linked, each on what those before it left.
pub proof fn law_batches_link_every_node<F: Fn(&[Score], &[Score]) -> Score, S: Fn(Score, usize) -> Score>(
    space: Space,
    score: F,
    allowance: S,
    floor: int,
    capping: bool,
    entry: int,
    top: int,
    levels: Seq<u8>,
    ef: usize,
    before: Links,
    after: Links,
    lo: int,
    hi: int,
)
    requires
        lo <= hi,
        batch::may_link_all(space, score, allowance, floor, capping, entry, top, levels, ef, before, after, lo, hi),
    ensures
        exists|stages: Seq<Links>| #[trigger]
            is_batch_linking(space, score, allowance, floor, capping, entry, top, levels, ef, lo, stages)
                && stages.len() == hi - lo + 1 && stages[0] == before && stages.last() == after,
    decreases hi - lo,
{
    if hi <= lo {
        let stages = seq![before];
        assert(is_batch_linking(space, score, allowance, floor, capping, entry, top, levels, ef, lo, stages));
    } else {
        let mid = choose|mid: Links|
            batch::may_link_all(
                space,
                score,
                allowance,
                floor,
                capping,
                entry,
                top,
                levels,
                ef,
                before,
                mid,
                lo,
                hi - 1,
            ) && #[trigger] batch::may_link_from(
                space,
                score,
                allowance,
                floor,
                capping,
                entry,
                top,
                (hi - 1) as usize,
                levels[hi - 1] as int,
                ef,
                mid,
                after,
            );
        law_batches_link_every_node(
            space,
            score,
            allowance,
            floor,
            capping,
            entry,
            top,
            levels,
            ef,
            before,
            mid,
            lo,
            hi - 1,
        );
        let rest = choose|stages: Seq<Links>| #[trigger]
            is_batch_linking(space, score, allowance, floor, capping, entry, top, levels, ef, lo, stages)
                && stages.len() == hi - 1 - lo + 1 && stages[0] == before && stages.last() == mid;
        let stages = rest.push(after);
        assert forall|i: int, j: int|
            #![trigger stages[i], stages[j]]
            0 <= i < stages.len() - 1 && j == i + 1 implies batch::may_link_from(
            space,
            score,
            allowance,
            floor,
            capping,
            entry,
            top,
            (lo + i) as usize,
            levels[lo + i] as int,
            ef,
            stages[i],
            stages[j],
        ) by {
            if j < rest.len() {
                assert(stages[i] == rest[i] && stages[j] == rest[j]);
            } else {
                assert(stages[i] == rest.last());
                assert(lo + i == hi - 1);
            }
        }
        assert(is_batch_linking(space, score, allowance, floor, capping, entry, top, levels, ef, lo, stages));
    }
}

/// The entry point of a graph after a batch is the one before it unless a new node has a
/// higher level; else it is the first of the new nodes with the highest level.
pub proof fn law_the_highest_node_is_entered(entry_level_ep: u64, levels: Seq<u8>, lo: int, hi: int)
    requires
        0 <= lo <= hi <= levels.len(),
        hi <= u32::MAX,
    ensures
        ({
            let after = batch::promoted(entry_level_ep, levels, lo, hi);
            let top = graph::unpacked_ep(entry_level_ep).1;
            ||| after == entry_level_ep && forall|k: int| lo <= k < hi ==> (#[trigger] levels[k]) <= top
            ||| exists|n: int|
                lo <= n < hi && after == graph::packed_ep(n, #[trigger] levels[n] as int) && levels[n] > top && (forall|
                    k: int,
                |
                    lo <= k < hi ==> (#[trigger] levels[k]) <= levels[n]) && (forall|k: int|
                    lo <= k < n ==> (#[trigger] levels[k]) < levels[n])
        }),
    decreases hi - lo,
{
    if hi > lo {
        law_the_highest_node_is_entered(entry_level_ep, levels, lo, hi - 1);
        let before = batch::promoted(entry_level_ep, levels, lo, hi - 1);
        let top = graph::unpacked_ep(entry_level_ep).1;
        graph::law_unpack_of_pack(hi - 1, levels[hi - 1] as int);
        if !(before == entry_level_ep && forall|k: int| lo <= k < hi - 1 ==> (#[trigger] levels[k]) <= top) {
            let n = choose|n: int|
                lo <= n < hi - 1 && before == graph::packed_ep(n, #[trigger] levels[n] as int) && levels[n] > top && (
                forall|k: int| lo <= k < hi - 1 ==> (#[trigger] levels[k]) <= levels[n]) && (forall|k: int|
                    lo <= k < n ==> (#[trigger] levels[k]) < levels[n]);
            graph::law_unpack_of_pack(n, levels[n] as int);
            assert(graph::unpacked_ep(before).1 == levels[n]);
        }
    }
}

/// A new node stands in every layer: in those up to its level, where it is to be linked,
/// it is its own neighbour, and above it has none; the lists of all others stay.
pub proof fn law_new_nodes_stand_in_every_layer(links: Links, node: usize, level: int, linked: bool, l: int, x: usize)
    requires
        0 <= l < links.layers.len(),
    ensures
        ({
            let after = insert::grown(links, node, level, linked).layers[l];
            &&& after.drop_last() == links.layers[l]
            &&& after.last().contains(x) <==> x == node && linked && l <= level
            &&& after.last().len() <= 1
        }),
{
    let after = insert::grown(links, node, level, linked).layers[l];
    assert(after.drop_last() =~= links.layers[l]);
    if linked && l <= level {
        assert(after.last()[0] == node);
    }
}

/// A batch in the order of its estimates holds at each place the last entry with the id
/// that the order puts there.
pub proof fn law_sorted_batches_hold_the_last_entries(
    batch: Seq<BatchEntry>,
    lids: Seq<Score>,
    sorted: Seq<BatchEntry>,
    i: int,
)
    requires
        batch::in_lid_order(batch, lids, sorted),
        lids.len() == batch.len() <= u64::MAX,
        batch.len() >= 4,
        0 <= i < batch.len(),
    ensures
        sorted.len() == batch.len(),
        exists|positions: Seq<int>, at: int| #[trigger]
            neighbours::is_stable_order(neighbours::falling(lids), positions) && 0 <= at
                < batch.len() && (#[trigger] batch[at]).id == batch[positions[i]].id && (forall|k: int|
                at < k < batch.len() ==> (#[trigger] batch[k]).id != batch[at].id) && sorted[i].id == batch[at].id
                && sorted[i].level == batch[at].level && sorted[i].vector@ == batch[at].vector@,
{
    neighbours::law_batches_are_ordered_by_estimates(lids);
    let positions = lid::lid_sorted(lids);
    let ids = batch::ids_of(batch);
    assert(batch::stands_for(batch, lids, i, sorted[i]));
    let at = choose|at: int|
        lid::is_last_position(ids, ids[positions[i]], at) && #[trigger] batch::same_entry(sorted[i], batch[at]);
    assert(0 <= positions[i] < batch.len());
    assert forall|k: int| at < k < batch.len() implies (#[trigger] batch[k]).id != batch[at].id by {
        assert(ids[k] != ids[positions[i]]);
    }
    assert(ids[at] == ids[positions[i]]);
    assert(neighbours::is_stable_order(neighbours::falling(lids), positions));
    assert(batch[at].id == batch[positions[i]].id);
}

/// An inserted node becomes the entry point where there was none or its level is above
/// all others; else the entry point stays.
pub proof fn law_higher_nodes_become_the_entry<F: Fn(&[Score], &[Score]) -> Score, S: Fn(Score, usize) -> Score>(
    before: HNSWIndex,
    after: HNSWIndex,
    score: F,
    allowance: S,
    floor: int,
    capping: bool,
    point_id: PointId,
    vector: Seq<Score>,
    level: usize,
)
    requires
        before.wf(),
        before.nodes() < graph::NO_EP,
        level <= before.max_level_cap,
        insert::inserted(before, after, score, allowance, floor, capping, point_id, vector, level),
    ensures
        before.entry() is None || level > before.top_level() ==> after.entry() == Some(before.nodes() as int)
            && after.top_level() == level,
        before.entry() is Some && level <= before.top_level() ==> after.entry() == before.entry() && after.top_level()
            == before.top_level(),
{
    graph::law_unpack_of_pack(before.nodes() as int, level as int);
}

} // verus!
