//! What a search of a graph finds, and what its options do.

use vstd::prelude::*;
use crate::arith;
use crate::hnsw::descend;
use crate::hnsw::graph;
use crate::hnsw::graph::HNSWIndex;
use crate::hnsw::rcm;
use crate::hnsw::search;
use crate::hnsw::search::{ScanLimits, Walk};
use crate::hnsw::types::{NodeCandidate, ScoredPoint, SearchRuntimeOptions};
use crate::score;
use crate::score::Score;

verus! {

/// Whether options cut no search short and ask for neither a second search nor further
/// entries.
pub open spec fn are_plain(options: SearchRuntimeOptions) -> bool {
    &&& options.neighbor_scan_cap_level0 is None || options.neighbor_scan_cap_level0 == Some(0usize)
    &&& options.neighbor_scan_patience is None || options.neighbor_scan_patience == Some(0usize)
    &&& options.early_exit_patience is None || options.early_exit_patience == Some(0usize)
    &&& options.adaptive_ef_high is None || options.adaptive_ef_score_threshold is None
    &&& options.num_entry_seeds is None
}

/// A node as a found point.
pub open spec fn as_point<F: Fn(&[Score], &[Score]) -> Score>(
    graph: HNSWIndex,
    score: F,
    query: Seq<Score>,
    node: int,
) -> ScoredPoint {
    let raw_score = arith::measure(score, query, graph.vectors.vectors()[node]);
    ScoredPoint { id: graph.ids@[node], raw_score, sort_key: graph::order_key(graph.metric, raw_score) }
}

/// Whether a point comes before another: it is closer, or as close with a smaller id.
pub open spec fn comes_first(a: ScoredPoint, b: ScoredPoint) -> bool {
    let x = score::value_key(a.sort_key);
    let y = score::value_key(b.sort_key);
    x < y || (x == y && a.id <= b.id)
}

proof fn lemma_short_list(list: Seq<NodeCandidate>, n: nat)
    requires
        search::nodes_differ(list),
        forall|i: int| 0 <= i < list.len() ==> (#[trigger] list[i]).idx < n,
    ensures
        list.len() <= n,
{
    let nodes = list.map_values(|c: NodeCandidate| c.idx);
    assert forall|i: int, j: int| 0 <= i < nodes.len() && 0 <= j < nodes.len() && i != j implies nodes[i]
        != nodes[j] by {
        if i < j {
            assert(list[i].idx != list[j].idx);
        } else {
            assert(list[j].idx != list[i].idx);
        }
    }
    assert(rcm::within(nodes, n)) by {
        assert forall|k: int| 0 <= k < nodes.len() implies (#[trigger] nodes[k]) < n by {
            assert(list[k].idx < n);
        }
    }
    rcm::lemma_unique_bounded(nodes, n);
}

/// A search with a longer list than there are nodes finds every node to which a path
/// leads from where the layers above lead, but for those behind as many as were asked
/// for.
pub proof fn law_wide_searches_find_the_best<F: Fn(&[Score], &[Score]) -> Score>(
    graph: HNSWIndex,
    score: F,
    query: Seq<Score>,
    top_k: usize,
    options: SearchRuntimeOptions,
    points: Seq<ScoredPoint>,
    path: Seq<usize>,
)
    requires
        graph.wf(),
        graph.entry() is Some,
        search::may_answer(graph, score, query, top_k, options, points),
        are_plain(options),
        options.ef_search matches Some(ef) && ef > graph.nodes(),
        options.expansion_mult is None,
        path.len() > 0,
        path[0] == descend::descended(
            graph.space(),
            score,
            graph.links(),
            query,
            graph.entry()->0,
            graph.top_level(),
            0,
        ) as usize,
        forall|i: int| 0 < i < path.len() ==> graph.links()[0][path[i - 1] as int].contains(#[trigger] path[i]),
        path.last() < graph.nodes(),
        !graph.deleted@[path.last() as int],
    ensures
        ({
            let found = as_point(graph, score, query, path.last() as int);
            points.contains(found) || (points.len() == top_k && forall|i: int|
                0 <= i < points.len() ==> comes_first(#[trigger] points[i], found))
        }),
{
    let entry = graph.entry()->0;
    let (entries, list): (Seq<usize>, Seq<NodeCandidate>) = choose|
        entries: Seq<usize>,
        list: Seq<NodeCandidate>,
    |
        search::may_enter(graph, score, query, entry, options, entries) && #[trigger] search::may_end(
            graph,
            score,
            query,
            top_k,
            options,
            entries,
            list,
        ) && search::are_first(search::points_of(graph, list), top_k as int, points);
    let size = search::list_size(graph, top_k, options);
    let first = choose|first: Seq<NodeCandidate>| #[trigger]
        search::may_result(graph, score, query, entries, size as int, options, first) && match search::second_size(
            top_k,
            options,
            first,
        ) {
            Some(ef) => search::may_result(graph, score, query, entries, ef as int, options, list),
            None => list == first,
        };
    assert(list == first);
    assert(search::are_results(graph, score, query, entries, size as int, 0, list));
    assert(size > graph.nodes());
    lemma_short_list(list, graph.nodes());
    assert(entries[0] == path[0]);
    assert(search::is_path(graph, entries, 0, path));
    search::law_short_lists_miss_nothing(graph, score, query, entries, size as int, 0, list, path);
    let at = choose|i: int| 0 <= i < list.len() && (#[trigger] list[i]).idx == path.last();
    let all = search::points_of(graph, list);
    let found = as_point(graph, score, query, path.last() as int);
    assert(all[at] == found);
    let sorted = choose|sorted: Seq<ScoredPoint>| #[trigger]
        search::points_ascend(sorted) && sorted.to_multiset() == all.to_multiset() && points == if top_k
            < sorted.len() {
            sorted.take(top_k as int)
        } else {
            sorted
        };
    assert(sorted.contains(found)) by {
        broadcast use vstd::seq_lib::group_to_multiset_ensures;

        assert(all.contains(found));
        assert(all.to_multiset().count(found) > 0);
    }
    let k = choose|k: int| 0 <= k < sorted.len() && sorted[k] == found;
    if k < points.len() {
        assert(points[k] == found);
    } else {
        assert forall|i: int| 0 <= i < points.len() implies comes_first(#[trigger] points[i], found) by {
            assert(points[i] == sorted[i]);
            assert(search::point_leq(sorted[i], sorted[k]));
        }
    }
}

/// A search keeps as many results as its options or else the graph say, times what the
/// options say, but never fewer than it is asked for.
pub proof fn law_searches_keep_as_many_as_asked(graph: HNSWIndex, top_k: usize, options: SearchRuntimeOptions)
    ensures
        ({
            let size = search::list_size(graph, top_k, options);
            let ef = if options.ef_search is Some {
                options.ef_search->0
            } else {
                graph.ef
            };
            let times = if options.expansion_mult is Some && options.expansion_mult->0 > 1 {
                options.expansion_mult->0 as int
            } else {
                1
            };
            &&& size >= top_k
            &&& size == top_k || size == ef * times || size == usize::MAX
            &&& ef * times <= usize::MAX ==> size >= ef * times
            &&& ef * times > usize::MAX ==> size == usize::MAX
        }),
{
    assert(options.expansion_mult is None ==> graph.ef * 1 == graph.ef);
}

/// A second search is made just where the best result is farther than the threshold.
pub proof fn law_second_searches(top_k: usize, options: SearchRuntimeOptions, first: Seq<NodeCandidate>)
    ensures
        search::second_size(top_k, options, first) is Some <==> options.adaptive_ef_high is Some
            && options.adaptive_ef_score_threshold is Some && first.len() > 0 && score::less(
            options.adaptive_ef_score_threshold->0,
            first[0].sort_key,
        ),
        search::second_size(top_k, options, first) matches Some(size) ==> size >= top_k && size
            >= options.adaptive_ef_high->0 && (size == top_k || size == options.adaptive_ef_high->0),
{
}

proof fn lemma_place(list: Seq<NodeCandidate>, c: NodeCandidate)
    ensures
        0 <= search::place(list, c) <= list.len(),
    decreases list.len(),
{
    if list.len() > 0 {
        lemma_place(list.drop_last(), c);
    }
}

/// Looking through nodes sees only them, and those that were seen stay seen. Without
/// patience it sees all of them; with it at least as many as its patience has left. What
/// it finds waits to be followed.
proof fn lemma_looked_through<F: Fn(&[Score], &[Score]) -> Score>(
    graph: HNSWIndex,
    score: F,
    query: Seq<Score>,
    ef: int,
    walk: Walk,
    nodes: Seq<usize>,
    idle: nat,
    patience: nat,
)
    requires
        forall|k: int| 0 <= k < nodes.len() ==> (#[trigger] nodes[k]) < walk.seen.len(),
    ensures
        ({
            let (end, gain) = search::looked_through(graph, score, query, ef, walk, nodes, idle, patience);
            &&& end.seen.len() == walk.seen.len()
            &&& forall|x: usize| x < walk.seen.len() && walk.seen[x as int] ==> #[trigger] end.seen[x as int]
            &&& forall|x: usize|
                x < walk.seen.len() && #[trigger] end.seen[x as int] ==> walk.seen[x as int] || nodes.contains(x)
            &&& forall|k: int|
                0 <= k < nodes.len() && (patience == 0 || idle + k < patience) ==> end.seen[(#[trigger] nodes[k]) as int]
            &&& gain ==> end.frontier.len() > walk.frontier.len()
            &&& !gain ==> end.frontier == walk.frontier && end.results == walk.results
        }),
    decreases nodes.len(),
{
    if nodes.len() > 0 && !(patience > 0 && idle >= patience) {
        let node = nodes[0];
        let next = search::looked(graph, score, query, ef, walk, node);
        let rest = nodes.drop_first();
        let gain = search::is_gain(graph, score, query, ef, walk, node);
        let more = if gain {
            0
        } else {
            idle + 1
        };
        assert forall|k: int| 0 <= k < rest.len() implies (#[trigger] rest[k]) < next.seen.len() by {
            assert(nodes[k + 1] < walk.seen.len());
        }
        lemma_place(walk.frontier, search::candidate_of(graph, score, query, node));
        lemma_looked_through(graph, score, query, ef, next, rest, more, patience);
        let (end, gained) = search::looked_through(graph, score, query, ef, walk, nodes, idle, patience);
        assert forall|x: usize| x < walk.seen.len() && walk.seen[x as int] implies #[trigger] end.seen[x as int] by {
            assert(next.seen[x as int]);
        }
        assert forall|x: usize| x < walk.seen.len() && #[trigger] end.seen[x as int] implies walk.seen[x as int]
            || nodes.contains(x) by {
            assert(next.seen[x as int] || rest.contains(x));
            if rest.contains(x) {
                let k = choose|k: int| 0 <= k < rest.len() && rest[k] == x;
                assert(nodes[k + 1] == x);
            } else if x == node {
                assert(nodes[0] == x);
            }
        }
        assert forall|k: int| 0 <= k < nodes.len() && (patience == 0 || idle + k < patience) implies end.seen[(
        #[trigger] nodes[k]) as int] by {
            if k == 0 {
                assert(next.seen[node as int]);
            } else {
                assert(rest[k - 1] == nodes[k]);
            }
        }
    }
}

/// The beginning of a list, up to a cap; zero means all of it.
pub open spec fn up_to(list: Seq<usize>, cap: usize) -> Seq<usize> {
    if cap == 0 || list.len() <= cap {
        list
    } else {
        list.take(cap as int)
    }
}

/// A step of a search that is cut short goes to the nearest node that waits, and looks at
/// its neighbours: at none beyond the cap, and where there is no patience at all of them
/// up to it, else at least at as many as the patience. It is idle just where none of them
/// is to be followed.
pub proof fn law_steps_look_at_the_first_neighbours<F: Fn(&[Score], &[Score]) -> Score>(
    graph: HNSWIndex,
    score: F,
    query: Seq<Score>,
    ef: int,
    level: int,
    limits: ScanLimits,
    walk: Walk,
)
    requires
        graph.wf(),
        0 <= level < graph.links().len(),
        walk.frontier.len() > 0,
        walk.frontier[0].idx < graph.nodes(),
        walk.seen.len() == graph.nodes(),
        forall|k: int|
            0 <= k < graph.links()[level][walk.frontier[0].idx as int].len() ==> (
            #[trigger] graph.links()[level][walk.frontier[0].idx as int][k]) < graph.nodes(),
    ensures
        ({
            let list = graph.links()[level][walk.frontier[0].idx as int];
            let nodes = up_to(list, limits.cap);
            let end = search::walk_step(graph, score, query, ef, level, limits, walk);
            &&& forall|x: usize| x < walk.seen.len() && walk.seen[x as int] ==> #[trigger] end.seen[x as int]
            &&& forall|x: usize|
                x < walk.seen.len() && #[trigger] end.seen[x as int] ==> walk.seen[x as int] || nodes.contains(x)
            &&& forall|k: int|
                0 <= k < nodes.len() && (limits.patience == 0 || k < limits.patience) ==> end.seen[(
                #[trigger] nodes[k]) as int]
            &&& end.idle == 0 || end.idle == walk.idle + 1
            &&& end.idle == 0 ==> end.frontier.len() >= walk.frontier.len()
            &&& end.idle > 0 ==> end.frontier == walk.frontier.drop_first() && end.results == walk.results
        }),
{
    let list = graph.links()[level][walk.frontier[0].idx as int];
    let nodes = search::capped(list, limits.cap as int);
    assert forall|k: int| 0 <= k < nodes.len() implies (#[trigger] nodes[k]) < graph.nodes() by {
        assert(nodes[k] == list[k]);
    }
    lemma_looked_through(
        graph,
        score,
        query,
        ef,
        (Walk { frontier: walk.frontier.drop_first(), ..walk }),
        nodes,
        0,
        limits.patience as nat,
    );
}

/// A search ends where no node waits, where all that wait are farther than all of a full
/// list, or where it is told to and too many nodes in a row brought nothing.
pub proof fn law_searches_end(walk: Walk, ef: int, limits: ScanLimits)
    requires
        search::keys_ascend(walk.frontier),
        search::keys_ascend(walk.results),
        ef > 0,
    ensures
        search::is_over(walk, ef, limits) <==> (limits.exit > 0 && walk.idle >= limits.exit) || (walk.results.len()
            >= ef && forall|i: int, j: int|
            0 <= i < walk.frontier.len() && 0 <= j < walk.results.len() ==> score::value_key(
                (#[trigger] walk.results[j]).sort_key,
            ) < score::value_key((#[trigger] walk.frontier[i]).sort_key)) || walk.frontier.len() == 0,
{
    if walk.frontier.len() > 0 && walk.results.len() > 0 {
        let last = walk.results.len() - 1;
        assert(walk.results[last] == walk.results.last());
        if score::value_key(walk.results.last().sort_key) < score::value_key(walk.frontier[0].sort_key) {
            assert forall|i: int, j: int|
                0 <= i < walk.frontier.len() && 0 <= j < walk.results.len() implies score::value_key(
                (#[trigger] walk.results[j]).sort_key,
            ) < score::value_key((#[trigger] walk.frontier[i]).sort_key) by {
                assert(score::value_key(walk.results[j].sort_key) <= score::value_key(walk.results[last].sort_key));
                assert(score::value_key(walk.frontier[0].sort_key) <= score::value_key(walk.frontier[i].sort_key));
            }
        }
    }
}

/// The key by which a node is ordered from a query.
pub open spec fn key_of<F: Fn(&[Score], &[Score]) -> Score>(
    graph: HNSWIndex,
    score: F,
    query: Seq<Score>,
    node: usize,
) -> int {
    score::value_key(
        graph::order_key(graph.metric, arith::measure(score, query, graph.vectors.vectors()[node as int])),
    )
}

/// Whether a list has a node, or is full of nodes that are no farther.
pub open spec fn has_or_is_full<F: Fn(&[Score], &[Score]) -> Score>(
    graph: HNSWIndex,
    score: F,
    query: Seq<Score>,
    ef: int,
    list: Seq<NodeCandidate>,
    node: usize,
) -> bool {
    ||| exists|i: int| 0 <= i < list.len() && (#[trigger] list[i]).idx == node
    ||| list.len() == ef && forall|i: int|
        0 <= i < list.len() ==> score::value_key((#[trigger] list[i]).sort_key) <= key_of(graph, score, query, node)
}

/// Whether the results of a search on its way are the best of what it has seen.
pub open spec fn keeps_the_best<F: Fn(&[Score], &[Score]) -> Score>(
    graph: HNSWIndex,
    score: F,
    query: Seq<Score>,
    ef: int,
    walk: Walk,
) -> bool {
    &&& walk.seen.len() == graph.nodes()
    &&& walk.results.len() <= ef
    &&& search::keys_ascend(walk.results)
    &&& forall|i: int|
        0 <= i < walk.results.len() ==> score::value_key((#[trigger] walk.results[i]).sort_key) == key_of(
            graph,
            score,
            query,
            walk.results[i].idx,
        )
    &&& forall|x: usize|
        x < graph.nodes() && #[trigger] walk.seen[x as int] && !graph.deleted@[x as int] ==> has_or_is_full(
            graph,
            score,
            query,
            ef,
            walk.results,
            x,
        )
}

proof fn lemma_place_of(list: Seq<NodeCandidate>, c: NodeCandidate)
    requires
        search::keys_ascend(list),
    ensures
        ({
            let at = search::place(list, c);
            &&& 0 <= at <= list.len()
            &&& forall|i: int| 0 <= i < at ==> score::value_key((#[trigger] list[i]).sort_key) <= score::value_key(c.sort_key)
            &&& forall|i: int|
                at <= i < list.len() ==> score::value_key(c.sort_key) < score::value_key((#[trigger] list[i]).sort_key)
        }),
    decreases list.len(),
{
    if list.len() > 0 && score::value_key(list.last().sort_key) > score::value_key(c.sort_key) {
        let rest = list.drop_last();
        assert(search::keys_ascend(rest)) by {
            assert forall|i: int, j: int| 0 <= i <= j < rest.len() implies score::value_key(
                (#[trigger] rest[i]).sort_key,
            ) <= score::value_key((#[trigger] rest[j]).sort_key) by {
                assert(rest[i] == list[i] && rest[j] == list[j]);
            }
        }
        lemma_place_of(rest, c);
        let at = search::place(list, c);
        assert forall|i: int| 0 <= i < at implies score::value_key((#[trigger] list[i]).sort_key) <= score::value_key(
            c.sort_key,
        ) by {
            assert(rest[i] == list[i]);
        }
        assert forall|i: int| at <= i < list.len() implies score::value_key(c.sort_key) < score::value_key(
            (#[trigger] list[i]).sort_key,
        ) by {
            if i < rest.len() {
                assert(rest[i] == list[i]);
            }
        }
    } else if list.len() > 0 {
        assert forall|i: int| 0 <= i < list.len() implies score::value_key((#[trigger] list[i]).sort_key)
            <= score::value_key(c.sort_key) by {
            assert(score::value_key(list[i].sort_key) <= score::value_key(list[list.len() - 1].sort_key));
        }
    }
}

proof fn lemma_entered<F: Fn(&[Score], &[Score]) -> Score>(
    graph: HNSWIndex,
    score: F,
    query: Seq<Score>,
    ef: int,
    list: Seq<NodeCandidate>,
    node: usize,
    x: usize,
)
    requires
        ef > 0,
        list.len() <= ef,
        search::keys_ascend(list),
        !search::is_out(list, ef, search::candidate_of(graph, score, query, node)),
        forall|i: int|
            0 <= i < list.len() ==> score::value_key((#[trigger] list[i]).sort_key) == key_of(
                graph,
                score,
                query,
                list[i].idx,
            ),
        x == node || has_or_is_full(graph, score, query, ef, list, x),
    ensures
        ({
            let after = search::entered(list, search::candidate_of(graph, score, query, node), ef);
            &&& after.len() <= ef
            &&& search::keys_ascend(after)
            &&& forall|i: int|
                0 <= i < after.len() ==> score::value_key((#[trigger] after[i]).sort_key) == key_of(
                    graph,
                    score,
                    query,
                    after[i].idx,
                )
            &&& has_or_is_full(graph, score, query, ef, after, x)
        }),
{
    let c = search::candidate_of(graph, score, query, node);
    let at = search::place(list, c);
    lemma_place_of(list, c);
    let grown = list.insert(at, c);
    let after = search::entered(list, c, ef);
    assert forall|i: int| 0 <= i < grown.len() implies score::value_key((#[trigger] grown[i]).sort_key) == key_of(
        graph,
        score,
        query,
        grown[i].idx,
    ) by {
        if i < at {
            assert(grown[i] == list[i]);
        } else if i > at {
            assert(grown[i] == list[i - 1]);
        }
    }
    assert forall|i: int, j: int| 0 <= i <= j < grown.len() implies score::value_key((#[trigger] grown[i]).sort_key)
        <= score::value_key((#[trigger] grown[j]).sort_key) by {
        let a = if i < at {
            i
        } else {
            i - 1
        };
        let b = if j < at {
            j
        } else {
            j - 1
        };
        if i != at {
            assert(grown[i] == list[a]);
        }
        if j != at {
            assert(grown[j] == list[b]);
        }
    }
    assert forall|i: int| 0 <= i < after.len() implies #[trigger] after[i] == grown[i] by {}
    assert(search::keys_ascend(after));
    let full = grown.len() > ef;
    if x == node || exists|i: int| 0 <= i < list.len() && (#[trigger] list[i]).idx == x {
        let k = if x == node {
            at
        } else {
            let i = choose|i: int| 0 <= i < list.len() && (#[trigger] list[i]).idx == x;
            if i < at {
                i
            } else {
                i + 1
            }
        };
        assert(grown[k].idx == x) by {
            if x != node {
                let i = choose|i: int| 0 <= i < list.len() && (#[trigger] list[i]).idx == x;
                assert(grown[k] == list[i]);
            }
        }
        if k < after.len() {
            assert(after[k].idx == x);
        } else {
            assert(full && k == ef);
            assert forall|i: int| 0 <= i < after.len() implies score::value_key((#[trigger] after[i]).sort_key)
                <= key_of(graph, score, query, x) by {
                assert(after[i] == grown[i]);
                assert(score::value_key(grown[i].sort_key) <= score::value_key(grown[k].sort_key));
            }
        }
    } else {
        assert(list.len() == ef);
        assert forall|i: int| 0 <= i < after.len() implies score::value_key((#[trigger] after[i]).sort_key) <= key_of(
            graph,
            score,
            query,
            x,
        ) by {
            assert(list[list.len() - 1] == list.last());
            if i < at {
                assert(after[i] == list[i]);
            } else if i > at {
                assert(after[i] == list[i - 1]);
            }
        }
    }
}

proof fn lemma_looked_keeps<F: Fn(&[Score], &[Score]) -> Score>(
    graph: HNSWIndex,
    score: F,
    query: Seq<Score>,
    ef: int,
    walk: Walk,
    node: usize,
)
    requires
        ef > 0,
        node < graph.nodes(),
        keeps_the_best(graph, score, query, ef, walk),
    ensures
        keeps_the_best(graph, score, query, ef, search::looked(graph, score, query, ef, walk, node)),
{
    let after = search::looked(graph, score, query, ef, walk, node);
    let c = search::candidate_of(graph, score, query, node);
    if search::is_gain(graph, score, query, ef, walk, node) && !graph.deleted@[node as int] {
        lemma_entered(graph, score, query, ef, walk.results, node, node);
        assert forall|x: usize|
            x < graph.nodes() && #[trigger] after.seen[x as int] && !graph.deleted@[x as int] implies has_or_is_full(
            graph,
            score,
            query,
            ef,
            after.results,
            x,
        ) by {
            if x != node {
                assert(walk.seen[x as int]);
            }
            lemma_entered(graph, score, query, ef, walk.results, node, x);
        }
    } else {
        assert forall|x: usize|
            x < graph.nodes() && #[trigger] after.seen[x as int] && !graph.deleted@[x as int] implies has_or_is_full(
            graph,
            score,
            query,
            ef,
            after.results,
            x,
        ) by {
            if !walk.seen[x as int] {
                assert(x == node);
                assert(search::is_out(walk.results, ef, c));
                assert forall|i: int| 0 <= i < walk.results.len() implies score::value_key(
                    (#[trigger] walk.results[i]).sort_key,
                ) <= key_of(graph, score, query, x) by {
                    assert(walk.results[walk.results.len() - 1] == walk.results.last());
                    assert(score::value_key(walk.results[i].sort_key) <= score::value_key(
                        walk.results[walk.results.len() - 1].sort_key,
                    ));
                }
            }
        }
    }
}

proof fn lemma_looked_through_keeps<F: Fn(&[Score], &[Score]) -> Score>(
    graph: HNSWIndex,
    score: F,
    query: Seq<Score>,
    ef: int,
    walk: Walk,
    nodes: Seq<usize>,
    idle: nat,
    patience: nat,
)
    requires
        ef > 0,
        forall|k: int| 0 <= k < nodes.len() ==> (#[trigger] nodes[k]) < graph.nodes(),
        keeps_the_best(graph, score, query, ef, walk),
    ensures
        keeps_the_best(
            graph,
            score,
            query,
            ef,
            search::looked_through(graph, score, query, ef, walk, nodes, idle, patience).0,
        ),
    decreases nodes.len(),
{
    if nodes.len() > 0 && !(patience > 0 && idle >= patience) {
        let node = nodes[0];
        let rest = nodes.drop_first();
        assert forall|k: int| 0 <= k < rest.len() implies (#[trigger] rest[k]) < graph.nodes() by {
            assert(nodes[k + 1] < graph.nodes());
        }
        lemma_looked_keeps(graph, score, query, ef, walk, node);
        lemma_looked_through_keeps(
            graph,
            score,
            query,
            ef,
            search::looked(graph, score, query, ef, walk, node),
            rest,
            if search::is_gain(graph, score, query, ef, walk, node) {
                0
            } else {
                idle + 1
            },
            patience,
        );
    }
}

/// A step of a search keeps the best of all that it has seen.
pub proof fn law_steps_keep_the_best<F: Fn(&[Score], &[Score]) -> Score>(
    graph: HNSWIndex,
    score: F,
    query: Seq<Score>,
    ef: int,
    level: int,
    limits: ScanLimits,
    walk: Walk,
)
    requires
        ef > 0,
        walk.frontier.len() > 0,
        keeps_the_best(graph, score, query, ef, walk),
        forall|k: int|
            0 <= k < graph.links()[level][walk.frontier[0].idx as int].len() ==> (
            #[trigger] graph.links()[level][walk.frontier[0].idx as int][k]) < graph.nodes(),
    ensures
        keeps_the_best(graph, score, query, ef, search::walk_step(graph, score, query, ef, level, limits, walk)),
{
    let list = graph.links()[level][walk.frontier[0].idx as int];
    let nodes = search::capped(list, limits.cap as int);
    assert forall|k: int| 0 <= k < nodes.len() implies (#[trigger] nodes[k]) < graph.nodes() by {
        assert(nodes[k] == list[k]);
    }
    let start = Walk { frontier: walk.frontier.drop_first(), ..walk };
    assert(keeps_the_best(graph, score, query, ef, start)) by {
        assert(start.seen == walk.seen && start.results == walk.results);
    }
    lemma_looked_through_keeps(graph, score, query, ef, start, nodes, 0, limits.patience as nat);
    let end = search::looked_through(graph, score, query, ef, start, nodes, 0, limits.patience as nat).0;
    let after = search::walk_step(graph, score, query, ef, level, limits, walk);
    assert(after.seen == end.seen && after.results == end.results);
}

/// A search starts with its entries: it has seen all of them, and keeps the best.
pub proof fn law_searches_start_with_their_entries<F: Fn(&[Score], &[Score]) -> Score>(
    graph: HNSWIndex,
    score: F,
    query: Seq<Score>,
    entries: Seq<usize>,
    ef: int,
)
    requires
        ef > 0,
        forall|k: int| 0 <= k < entries.len() ==> (#[trigger] entries[k]) < graph.nodes(),
    ensures
        ({
            let start = search::walk_start(graph, score, query, entries, ef);
            &&& keeps_the_best(graph, score, query, ef, start)
            &&& forall|x: usize| x < graph.nodes() ==> (#[trigger] start.seen[x as int] <==> entries.contains(x))
        }),
{
    let nothing = Walk {
        seen: Seq::new(graph.nodes(), |i: int| false),
        frontier: Seq::empty(),
        results: Seq::empty(),
        idle: 0,
    };
    assert(keeps_the_best(graph, score, query, ef, nothing));
    lemma_looked_through_keeps(graph, score, query, ef, nothing, entries, 0, 0);
    lemma_looked_through(graph, score, query, ef, nothing, entries, 0, 0);
    let start = search::walk_start(graph, score, query, entries, ef);
    assert forall|x: usize| x < graph.nodes() implies (#[trigger] start.seen[x as int] <==> entries.contains(x)) by {
        if entries.contains(x) {
            let k = choose|k: int| 0 <= k < entries.len() && entries[k] == x;
            assert(start.seen[entries[k] as int]);
        }
    }
}

} // verus!
