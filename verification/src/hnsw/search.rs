//! Searches over the graph.

use vstd::prelude::*;
use crate::arith;
use crate::hnsw::descend;
use crate::hnsw::graph;
use crate::hnsw::graph::HNSWIndex;
use crate::hnsw::link;
use crate::hnsw::types::{DBError, NodeCandidate, ScoredPoint, SearchRuntimeOptions};
use crate::score;
use crate::score::Score;

verus! {

/// A node as a candidate for the results of a query.
pub open spec fn candidate_of<F: Fn(&[Score], &[Score]) -> Score>(
    graph: HNSWIndex,
    score: F,
    query: Seq<Score>,
    node: usize,
) -> NodeCandidate {
    let raw_score = arith::measure(score, query, graph.vectors.vectors()[node as int]);
    NodeCandidate { idx: node, raw_score, sort_key: graph::order_key(graph.metric, raw_score) }
}

/// Whether keys ascend.
pub open spec fn keys_ascend(list: Seq<NodeCandidate>) -> bool {
    forall|i: int, j: int|
        0 <= i <= j < list.len() ==> score::value_key((#[trigger] list[i]).sort_key) <= score::value_key(
            (#[trigger] list[j]).sort_key,
        )
}

/// Whether a list holds a node.
pub open spec fn has_node(list: Seq<NodeCandidate>, node: int) -> bool {
    exists|i: int| 0 <= i < list.len() && (#[trigger] list[i]).idx == node
}

/// Whether a list holds no node twice.
pub open spec fn nodes_differ(list: Seq<NodeCandidate>) -> bool {
    forall|i: int, j: int| 0 <= i < j < list.len() ==> (#[trigger] list[i]).idx != (#[trigger] list[j]).idx
}

/// Whether each of a list is a node of the graph with its score.
pub open spec fn are_candidates<F: Fn(&[Score], &[Score]) -> Score>(
    graph: HNSWIndex,
    score: F,
    query: Seq<Score>,
    list: Seq<NodeCandidate>,
) -> bool {
    forall|i: int|
        0 <= i < list.len() ==> (#[trigger] list[i]).idx < graph.nodes() && list[i] == candidate_of(
            graph,
            score,
            query,
            list[i].idx,
        )
}

/// Whether a node was reached in its turn: it is an entry, or a neighbour of a node
/// that was reached before.
pub open spec fn is_reached(graph: HNSWIndex, entries: Seq<usize>, level: int, order: Seq<usize>, i: int) -> bool {
    entries.contains(order[i]) || exists|j: int, k: int|
        0 <= j < i && 0 <= k < graph.links()[level][order[j] as int].len()
            && #[trigger] graph.links()[level][order[j] as int][k] == order[i]
}

/// Whether nodes can be reached from entries in this order.
pub open spec fn is_walk(graph: HNSWIndex, entries: Seq<usize>, level: int, order: Seq<usize>) -> bool {
    forall|i: int|
        0 <= i < order.len() ==> (#[trigger] order[i]) < graph.nodes() && is_reached(graph, entries, level, order, i)
}

/// Whether a list is full, and a node no nearer than all in it.
pub open spec fn is_beyond<F: Fn(&[Score], &[Score]) -> Score>(
    graph: HNSWIndex,
    score: F,
    query: Seq<Score>,
    ef: int,
    list: Seq<NodeCandidate>,
    node: usize,
) -> bool {
    ef > 0 && list.len() == ef && score::value_key(list.last().sort_key) <= score::value_key(
        candidate_of(graph, score, query, node).sort_key,
    )
}

/// Whether all neighbours of a node were reached.
pub open spec fn is_followed(graph: HNSWIndex, level: int, order: Seq<usize>, node: usize) -> bool {
    forall|k: int|
        0 <= k < graph.links()[level][node as int].len() ==> order.contains(
            #[trigger] graph.links()[level][node as int][k],
        )
}

/// Whether nothing is left to do: the entries were reached, and of each node that
/// was reached the neighbours too; each that is present is in the list; but for
/// nodes no nearer than all of a full list.
pub open spec fn is_complete<F: Fn(&[Score], &[Score]) -> Score>(
    graph: HNSWIndex,
    score: F,
    query: Seq<Score>,
    entries: Seq<usize>,
    ef: int,
    level: int,
    order: Seq<usize>,
    list: Seq<NodeCandidate>,
) -> bool {
    &&& forall|e: int| 0 <= e < entries.len() ==> order.contains(#[trigger] entries[e])
    &&& forall|i: int| 0 <= i < list.len() ==> order.contains((#[trigger] list[i]).idx)
    &&& forall|i: int|
        0 <= i < order.len() && !graph.deleted@[(#[trigger] order[i]) as int] ==> has_node(list, order[i] as int)
            || is_beyond(graph, score, query, ef, list, order[i])
    &&& forall|i: int|
        0 <= i < order.len() ==> is_followed(graph, level, order, #[trigger] order[i]) || is_beyond(
            graph,
            score,
            query,
            ef,
            list,
            order[i],
        )
}

/// Whether these are results of a search from entry nodes: present nodes with their
/// scores, none twice, in the order of their keys, at most `ef`, and nothing left to
/// do.
pub open spec fn are_results<F: Fn(&[Score], &[Score]) -> Score>(
    graph: HNSWIndex,
    score: F,
    query: Seq<Score>,
    entries: Seq<usize>,
    ef: int,
    level: int,
    list: Seq<NodeCandidate>,
) -> bool {
    &&& are_candidates(graph, score, query, list)
    &&& forall|i: int| 0 <= i < list.len() ==> !graph.deleted@[(#[trigger] list[i]).idx as int]
    &&& nodes_differ(list)
    &&& keys_ascend(list)
    &&& list.len() <= ef
    &&& ef > 0 ==> exists|order: Seq<usize>|
        is_walk(graph, entries, level, order) && #[trigger] is_complete(
            graph,
            score,
            query,
            entries,
            ef,
            level,
            order,
            list,
        )
}

/// What cuts a search in a layer short; zero where it does not.
#[derive(Clone, Copy, Debug)]
pub struct ScanLimits {
    /// How many neighbours of a node are looked at.
    pub cap: usize,
    /// How many neighbours of a node in a row may bring nothing.
    pub patience: usize,
    /// How many nodes in a row may bring nothing.
    pub exit: usize,
}

/// What a search in a layer holds on its way: the nodes seen, those whose neighbours
/// are to be looked at and the best results, both in the order of their keys, and how
/// many nodes in a row brought nothing.
#[verifier::ext_equal]
pub struct Walk {
    pub seen: Seq<bool>,
    pub frontier: Seq<NodeCandidate>,
    pub results: Seq<NodeCandidate>,
    pub idle: nat,
}

/// The place of a candidate behind all of no greater key.
pub open spec fn place(list: Seq<NodeCandidate>, c: NodeCandidate) -> int
    decreases list.len(),
{
    if list.len() == 0 || score::value_key(list.last().sort_key) <= score::value_key(c.sort_key) {
        list.len() as int
    } else {
        place(list.drop_last(), c)
    }
}

/// A list with a candidate in its place, cut to its best.
pub open spec fn entered(list: Seq<NodeCandidate>, c: NodeCandidate, ef: int) -> Seq<NodeCandidate> {
    let grown = list.insert(place(list, c), c);
    if grown.len() > ef {
        grown.drop_last()
    } else {
        grown
    }
}

/// Whether a list is full, and a candidate no nearer than all in it.
pub open spec fn is_out(list: Seq<NodeCandidate>, ef: int, c: NodeCandidate) -> bool {
    ef > 0 && list.len() == ef && score::value_key(list.last().sort_key) <= score::value_key(c.sort_key)
}

/// Whether looking at a node brings something: it was not seen before, and it is
/// nearer than the farthest of a full list of results.
pub open spec fn is_gain<F: Fn(&[Score], &[Score]) -> Score>(
    graph: HNSWIndex,
    score: F,
    query: Seq<Score>,
    ef: int,
    walk: Walk,
    node: usize,
) -> bool {
    !walk.seen[node as int] && !is_out(walk.results, ef, candidate_of(graph, score, query, node))
}

/// What a search holds after it looked at a node.
pub open spec fn looked<F: Fn(&[Score], &[Score]) -> Score>(
    graph: HNSWIndex,
    score: F,
    query: Seq<Score>,
    ef: int,
    walk: Walk,
    node: usize,
) -> Walk {
    let c = candidate_of(graph, score, query, node);
    if is_gain(graph, score, query, ef, walk, node) {
        Walk {
            seen: walk.seen.update(node as int, true),
            frontier: walk.frontier.insert(place(walk.frontier, c), c),
            results: if graph.deleted@[node as int] {
                walk.results
            } else {
                entered(walk.results, c, ef)
            },
            ..walk
        }
    } else {
        Walk { seen: walk.seen.update(node as int, true), ..walk }
    }
}

/// What a search holds after it looked at nodes in turn, of which so many before
/// brought nothing, until `patience` in a row did; zero means that it looks at all.
/// The last part is whether one of them brought something.
pub open spec fn looked_through<F: Fn(&[Score], &[Score]) -> Score>(
    graph: HNSWIndex,
    score: F,
    query: Seq<Score>,
    ef: int,
    walk: Walk,
    nodes: Seq<usize>,
    idle: nat,
    patience: nat,
) -> (Walk, bool)
    decreases nodes.len(),
{
    if nodes.len() == 0 || (patience > 0 && idle >= patience) {
        (walk, false)
    } else {
        let gain = is_gain(graph, score, query, ef, walk, nodes[0]);
        let (end, more) = looked_through(
            graph,
            score,
            query,
            ef,
            looked(graph, score, query, ef, walk, nodes[0]),
            nodes.drop_first(),
            if gain {
                0
            } else {
                idle + 1
            },
            patience,
        );
        (end, gain || more)
    }
}

/// The neighbours of a node that are looked at.
pub open spec fn capped(list: Seq<usize>, cap: int) -> Seq<usize> {
    if 0 < cap < list.len() {
        list.take(cap)
    } else {
        list
    }
}

/// What a search holds after it looked at its entries.
pub open spec fn walk_start<F: Fn(&[Score], &[Score]) -> Score>(
    graph: HNSWIndex,
    score: F,
    query: Seq<Score>,
    entries: Seq<usize>,
    ef: int,
) -> Walk {
    looked_through(
        graph,
        score,
        query,
        ef,
        Walk {
            seen: Seq::new(graph.nodes(), |i: int| false),
            frontier: Seq::empty(),
            results: Seq::empty(),
            idle: 0,
        },
        entries,
        0,
        0,
    ).0
}

/// What a search holds after it looked at the neighbours of the nearest node that
/// waits.
pub open spec fn walk_step<F: Fn(&[Score], &[Score]) -> Score>(
    graph: HNSWIndex,
    score: F,
    query: Seq<Score>,
    ef: int,
    level: int,
    limits: ScanLimits,
    walk: Walk,
) -> Walk {
    let (end, gain) = looked_through(
        graph,
        score,
        query,
        ef,
        Walk { frontier: walk.frontier.drop_first(), ..walk },
        capped(graph.links()[level][walk.frontier[0].idx as int], limits.cap as int),
        0,
        limits.patience as nat,
    );
    Walk {
        idle: if gain {
            0
        } else {
            walk.idle + 1
        },
        ..end
    }
}

/// What a search holds after so many steps.
pub open spec fn walk_after<F: Fn(&[Score], &[Score]) -> Score>(
    graph: HNSWIndex,
    score: F,
    query: Seq<Score>,
    entries: Seq<usize>,
    ef: int,
    level: int,
    limits: ScanLimits,
    steps: nat,
) -> Walk
    decreases steps,
{
    if steps == 0 {
        walk_start(graph, score, query, entries, ef)
    } else {
        walk_step(
            graph,
            score,
            query,
            ef,
            level,
            limits,
            walk_after(graph, score, query, entries, ef, level, limits, (steps - 1) as nat),
        )
    }
}

/// Whether a search ends: no node waits, or the nearest is farther than all of a full
/// list of results, or too many nodes in a row brought nothing.
pub open spec fn is_over(walk: Walk, ef: int, limits: ScanLimits) -> bool {
    ||| walk.frontier.len() == 0
    ||| walk.results.len() >= ef && score::value_key(walk.results.last().sort_key) < score::value_key(
        walk.frontier[0].sort_key,
    )
    ||| limits.exit > 0 && walk.idle >= limits.exit
}

/// Whether a search ends after so many steps, and not before.
pub open spec fn ends_after<F: Fn(&[Score], &[Score]) -> Score>(
    graph: HNSWIndex,
    score: F,
    query: Seq<Score>,
    entries: Seq<usize>,
    ef: int,
    level: int,
    limits: ScanLimits,
    steps: nat,
) -> bool {
    &&& is_over(walk_after(graph, score, query, entries, ef, level, limits, steps), ef, limits)
    &&& forall|m: nat|
        m < steps ==> !is_over(#[trigger] walk_after(graph, score, query, entries, ef, level, limits, m), ef, limits)
}

/// Whether these are present nodes with their scores, none twice, in the order of
/// their keys, at most `ef`.
pub open spec fn are_listed<F: Fn(&[Score], &[Score]) -> Score>(
    graph: HNSWIndex,
    score: F,
    query: Seq<Score>,
    ef: int,
    list: Seq<NodeCandidate>,
) -> bool {
    &&& are_candidates(graph, score, query, list)
    &&& forall|i: int| 0 <= i < list.len() ==> !graph.deleted@[(#[trigger] list[i]).idx as int]
    &&& nodes_differ(list)
    &&& keys_ascend(list)
    &&& list.len() <= ef
}

/// Whether these are the results of a search that is cut short: what it holds when it
/// ends.
pub open spec fn are_cut_results<F: Fn(&[Score], &[Score]) -> Score>(
    graph: HNSWIndex,
    score: F,
    query: Seq<Score>,
    entries: Seq<usize>,
    ef: int,
    level: int,
    limits: ScanLimits,
    list: Seq<NodeCandidate>,
) -> bool {
    &&& are_listed(graph, score, query, ef, list)
    &&& ef > 0 ==> exists|steps: nat|
        #[trigger] ends_after(graph, score, query, entries, ef, level, limits, steps) && list == walk_after(
            graph,
            score,
            query,
            entries,
            ef,
            level,
            limits,
            steps,
        ).results
}

/// Puts a candidate behind all of no greater key.
fn insert_by_key(list: &mut Vec<NodeCandidate>, c: NodeCandidate) -> (at: usize)
    requires
        keys_ascend(old(list)@),
    ensures
        at <= old(list)@.len(),
        at == place(old(list)@, c),
        final(list)@ == old(list)@.insert(at as int, c),
        keys_ascend(final(list)@),
{
    let ghost before = list@;
    let mut at: usize = list.len();
    assert(before.take(at as int) =~= before);
    while at > 0 && score::value_rank(list[at - 1].sort_key) > score::value_rank(c.sort_key)
        invariant
            at <= list@.len(),
            list@ == before,
            place(before, c) == place(before.take(at as int), c),
            forall|i: int| at <= i < before.len() ==> score::value_key(c.sort_key) < score::value_key(
                (#[trigger] before[i]).sort_key,
            ),
        decreases at,
    {
        assert(before.take(at as int).drop_last() =~= before.take(at - 1));
        at -= 1;
    }
    list.insert(at, c);
    proof {
        let after = list@;
        assert(after =~= before.insert(at as int, c));
        assert forall|i: int, j: int| 0 <= i <= j < after.len() implies score::value_key((#[trigger] after[i]).sort_key)
            <= score::value_key((#[trigger] after[j]).sort_key) by {
            let a = if i < at { i } else { i - 1 };
            let b = if j < at { j } else { j - 1 };
            if i != at && j != at {
                assert(after[i] == before[a] && after[j] == before[b]);
                assert(score::value_key(before[a].sort_key) <= score::value_key(before[b].sort_key));
            } else if i == at && j > at {
                assert(after[j] == before[b]);
            } else if j == at && i < at {
                assert(after[i] == before[i]);
                assert(score::value_key(before[i].sort_key) <= score::value_key(before[at - 1].sort_key));
            }
        }
    }
    at
}

proof fn lemma_inserted(before: Seq<NodeCandidate>, at: int, c: NodeCandidate, node: int)
    requires
        0 <= at <= before.len(),
    ensures
        has_node(before.insert(at, c), node) <==> has_node(before, node) || c.idx == node,
{
    let after = before.insert(at, c);
    if has_node(before, node) {
        let i = choose|i: int| 0 <= i < before.len() && (#[trigger] before[i]).idx == node;
        assert(after[if i < at { i } else { i + 1 }].idx == node);
    }
    if c.idx == node {
        assert(after[at].idx == node);
    }
    if has_node(after, node) {
        let i = choose|i: int| 0 <= i < after.len() && (#[trigger] after[i]).idx == node;
        if i < at {
            assert(before[i].idx == node);
        } else if i > at {
            assert(before[i - 1].idx == node);
        }
    }
}

/// Whether a list holds what another held, or one candidate more, and nothing else.
spec fn at_most_one_more(before: Seq<NodeCandidate>, after: Seq<NodeCandidate>, c: NodeCandidate) -> bool {
    forall|i: int| 0 <= i < after.len() ==> before.contains(#[trigger] after[i]) || after[i] == c
}

/// Offers a node that was not seen before: it is to be looked at where it may lead
/// to a result, and it is a result where it is present and among the nearest. Gives
/// whether it is to be looked at.
fn offer(
    frontier: &mut Vec<NodeCandidate>,
    results: &mut Vec<NodeCandidate>,
    c: NodeCandidate,
    present: bool,
    ef: usize,
) -> (gain: bool)
    requires
        ef > 0,
        keys_ascend(old(frontier)@),
        keys_ascend(old(results)@),
        nodes_differ(old(results)@),
        old(results)@.len() <= ef,
        !has_node(old(results)@, c.idx as int),
    ensures
        keys_ascend(final(frontier)@),
        keys_ascend(final(results)@),
        nodes_differ(final(results)@),
        final(results)@.len() <= ef,
        final(frontier)@.len() <= old(frontier)@.len() + 1,
        at_most_one_more(old(frontier)@, final(frontier)@, c),
        at_most_one_more(old(results)@, final(results)@, c),
        !present ==> final(results)@ == old(results)@,
        forall|node: int| has_node(old(frontier)@, node) ==> has_node(final(frontier)@, node),
        has_node(final(frontier)@, c.idx as int) || is_out(final(results)@, ef as int, c),
        forall|i: int|
            0 <= i < old(results)@.len() ==> final(results)@.contains(#[trigger] old(results)@[i]) || is_out(
                final(results)@,
                ef as int,
                old(results)@[i],
            ),
        present ==> final(results)@.contains(c) || is_out(final(results)@, ef as int, c),
        forall|d: NodeCandidate| is_out(old(results)@, ef as int, d) ==> #[trigger] is_out(final(results)@, ef as int, d),
        gain == !is_out(old(results)@, ef as int, c),
        final(frontier)@ == if gain {
            old(frontier)@.insert(place(old(frontier)@, c), c)
        } else {
            old(frontier)@
        },
        final(results)@ == if gain && present {
            entered(old(results)@, c, ef as int)
        } else {
            old(results)@
        },
{
    let full: bool = results.len() >= ef;
    if full && score::value_rank(results[results.len() - 1].sort_key) <= score::value_rank(c.sort_key) {
        proof {
            assert forall|i: int| 0 <= i < results@.len() implies old(results)@.contains(#[trigger] results@[i]) by {
            }
            assert forall|i: int| 0 <= i < frontier@.len() implies old(frontier)@.contains(#[trigger] frontier@[i]) by {
            }
        }
        return false;
    }
    let ghost waiting = frontier@;
    let at: usize = insert_by_key(frontier, c);
    proof {
        assert forall|i: int| 0 <= i < frontier@.len() implies waiting.contains(#[trigger] frontier@[i]) || frontier@[i] == c by {
            if i < at {
                assert(waiting[i] == frontier@[i]);
            } else if i > at {
                assert(waiting[i - 1] == frontier@[i]);
            }
        }
        assert forall|node: int| has_node(waiting, node) implies has_node(frontier@, node) by {
            lemma_inserted(waiting, at as int, c, node);
        }
        lemma_inserted(waiting, at as int, c, c.idx as int);
    }
    if present {
        let ghost before = results@;
        let at: usize = insert_by_key(results, c);
        let ghost grown = results@;
        proof {
            assert forall|i: int| 0 <= i < grown.len() implies before.contains(#[trigger] grown[i]) || grown[i] == c by {
                if i < at {
                    assert(before[i] == grown[i]);
                } else if i > at {
                    assert(before[i - 1] == grown[i]);
                }
            }
            assert forall|i: int, j: int| 0 <= i < j < grown.len() implies (#[trigger] grown[i]).idx != (
            #[trigger] grown[j]).idx by {
                let a = if i < at { i } else { i - 1 };
                let b = if j < at { j } else { j - 1 };
                if i == at {
                    assert(before[b].idx == grown[j].idx);
                } else if j == at {
                    assert(before[a].idx == grown[i].idx);
                } else {
                    assert(before[a].idx != before[b].idx);
                }
            }
            assert(grown[at as int] == c);
            assert forall|i: int| 0 <= i < before.len() implies grown.contains(#[trigger] before[i]) by {
                assert(grown[if i < at { i } else { i + 1 }] == before[i]);
            }
        }
        if results.len() > ef {
            let _ = results.pop();
            proof {
                assert(results@ =~= grown.drop_last());
                assert(results@.len() == ef);
                assert forall|i: int| 0 <= i < grown.len() implies results@.contains(#[trigger] grown[i]) || is_out(
                    results@,
                    ef as int,
                    grown[i],
                ) by {
                    if i < ef {
                        assert(results@[i] == grown[i]);
                    } else {
                        assert(results@.last() == grown[ef - 1]);
                        assert(score::value_key(grown[ef - 1].sort_key) <= score::value_key(grown[i].sort_key));
                    }
                }
                assert forall|i: int| 0 <= i < before.len() implies results@.contains(#[trigger] before[i]) || is_out(
                    results@,
                    ef as int,
                    before[i],
                ) by {
                    assert(grown.contains(before[i]));
                    let j = choose|j: int| 0 <= j < grown.len() && grown[j] == before[i];
                    assert(grown[j] == before[i]);
                }
                assert(grown[ef - 1] == results@.last());
                assert(score::value_key(results@.last().sort_key) <= score::value_key(before.last().sort_key)) by {
                    assert(before.len() == ef);
                    if at < ef {
                        assert(grown[ef as int] == before[ef - 1]);
                        assert(score::value_key(grown[ef - 1].sort_key) <= score::value_key(grown[ef as int].sort_key));
                    } else {
                        assert(grown[ef - 1] == before[ef - 1]);
                    }
                }
            }
        }
    } else {
        assert forall|i: int| 0 <= i < results@.len() implies old(results)@.contains(#[trigger] results@[i]) by {
        }
    }
    true
}

impl HNSWIndex {
    /// A node as a candidate for the results of a query.
    fn candidate_for<F: Fn(&[Score], &[Score]) -> Score>(&self, score: &F, query: &[Score], node: usize) -> (r:
        NodeCandidate)
        requires
            self.wf(),
            arith::is_measure(*score),
            node < self.nodes(),
        ensures
            r == candidate_of(*self, *score, query@, node),
    {
        let raw_score: Score = arith::apply_measure(score, query, self.vector_slice(node));
        NodeCandidate { idx: node, raw_score, sort_key: self.normalize_score(raw_score) }
    }

    /// Looks at a node, where that was not done before: it is offered as a result,
    /// and as a node whose neighbours are to be looked at. Gives whether that brought
    /// something.
    fn visit<F: Fn(&[Score], &[Score]) -> Score>(
        &self,
        score: &F,
        query: &[Score],
        node: usize,
        ef: usize,
        visited: &mut Vec<bool>,
        frontier: &mut Vec<NodeCandidate>,
        results: &mut Vec<NodeCandidate>,
    ) -> (gain: bool)
        requires
            self.wf(),
            arith::is_measure(*score),
            node < self.nodes(),
            ef > 0,
            in_step(*self, *score, query@, ef as int, old(visited)@, old(frontier)@, old(results)@),
        ensures
            in_step(*self, *score, query@, ef as int, final(visited)@, final(frontier)@, final(results)@),
            final(visited)@ == old(visited)@.update(node as int, true),
            work_left(final(visited)@, final(frontier)@) <= work_left(old(visited)@, old(frontier)@),
            old(visited)@[node as int] || has_node(final(frontier)@, node as int) || is_beyond(
                *self,
                *score,
                query@,
                ef as int,
                final(results)@,
                node,
            ),
            forall|v: int| has_node(old(frontier)@, v) ==> has_node(final(frontier)@, v),
            forall|v: usize|
                is_beyond(*self, *score, query@, ef as int, old(results)@, v) ==> #[trigger] is_beyond(
                    *self,
                    *score,
                    query@,
                    ef as int,
                    final(results)@,
                    v,
                ),
            forall|idle: nat|
                #![trigger walk_of(old(visited)@, old(frontier)@, old(results)@, idle)]
                {
                    let walk = walk_of(old(visited)@, old(frontier)@, old(results)@, idle);
                    &&& gain == is_gain(*self, *score, query@, ef as int, walk, node)
                    &&& walk_of(final(visited)@, final(frontier)@, final(results)@, idle) == looked(
                        *self,
                        *score,
                        query@,
                        ef as int,
                        walk,
                        node,
                    )
                },
    {
        if visited[node] {
            assert(visited@.update(node as int, true) =~= visited@);
            return false;
        }
        let ghost prior = visited@;
        let ghost found = results@;
        let ghost wait = frontier@;
        proof {
            graph::lemma_flag_count_set(prior, node as int);
            assert(!has_node(found, node as int)) by {
                if has_node(found, node as int) {
                    let i = choose|i: int| 0 <= i < found.len() && (#[trigger] found[i]).idx == node;
                    assert(prior[found[i].idx as int]);
                }
            }
        }
        visited.set(node, true);
        let next: NodeCandidate = self.candidate_for(score, query, node);
        let gain: bool = offer(frontier, results, next, !self.deleted[node], ef);
        proof {
            assert forall|i: int| 0 <= i < frontier@.len() implies (#[trigger] frontier@[i]).idx < self.nodes()
                && frontier@[i] == candidate_of(*self, *score, query@, frontier@[i].idx)
                && visited@[frontier@[i].idx as int] by {
                if wait.contains(frontier@[i]) {
                    let j = choose|j: int| 0 <= j < wait.len() && wait[j] == frontier@[i];
                    assert(prior[wait[j].idx as int]);
                }
            }
            assert forall|i: int| 0 <= i < results@.len() implies (#[trigger] results@[i]).idx < self.nodes()
                && results@[i] == candidate_of(*self, *score, query@, results@[i].idx) && visited@[results@[i].idx as int]
                && !self.deleted@[results@[i].idx as int] by {
                if found.contains(results@[i]) {
                    let j = choose|j: int| 0 <= j < found.len() && found[j] == results@[i];
                    assert(prior[found[j].idx as int]);
                }
            }
            assert forall|v: usize| is_beyond(*self, *score, query@, ef as int, found, v) implies #[trigger] is_beyond(
                *self,
                *score,
                query@,
                ef as int,
                results@,
                v,
            ) by {
                let d = candidate_of(*self, *score, query@, v);
                assert(is_out(found, ef as int, d));
                assert(is_out(results@, ef as int, d));
            }
            assert forall|v: int| 0 <= v < visited@.len() && #[trigger] visited@[v] && !self.deleted@[v] implies has_node(
                results@,
                v,
            ) || is_beyond(*self, *score, query@, ef as int, results@, v as usize) by {
                if v != node {
                    assert(prior[v]);
                    if has_node(found, v) {
                        let i = choose|i: int| 0 <= i < found.len() && (#[trigger] found[i]).idx == v;
                        if results@.contains(found[i]) {
                            let j = choose|j: int| 0 <= j < results@.len() && results@[j] == found[i];
                            assert(results@[j].idx == v);
                        } else {
                            assert(found[i] == candidate_of(*self, *score, query@, v as usize));
                        }
                    } else {
                        assert(is_beyond(*self, *score, query@, ef as int, found, v as usize));
                    }
                } else if results@.contains(next) {
                    let j = choose|j: int| 0 <= j < results@.len() && results@[j] == next;
                    assert(results@[j].idx == v);
                }
            }
        }
        gain
    }

    /// The present nodes of a layer that are nearest to a query, as far as they are
    /// found from entry nodes: the nearest node whose neighbours were not looked at
    /// yet is next, until it is farther than the `ef` nearest found.
    pub fn search_layer_unfiltered<F: Fn(&[Score], &[Score]) -> Score>(
        &self,
        score: &F,
        query: &[Score],
        entries: &[usize],
        ef: usize,
        level: usize,
    ) -> (r: Vec<NodeCandidate>)
        requires
            self.wf(),
            arith::is_measure(*score),
            forall|e: int| 0 <= e < entries@.len() ==> (#[trigger] entries@[e]) < self.nodes(),
            level < self.layers@.len(),
        ensures
            are_results(*self, *score, query@, entries@, ef as int, level as int, r@),
            link::within(r@, self.nodes()),
    {
        let mut results: Vec<NodeCandidate> = Vec::new();
        if ef == 0 {
            return results;
        }
        let total: usize = self.len();
        let ghost list_of = self.links()[level as int];
        let mut visited: Vec<bool> = vec![false; total];
        let mut frontier: Vec<NodeCandidate> = Vec::new();
        proof {
            assert(self.layers@[level as int]@.len() == total);
            assert(list_of.len() == total);
        }
        let ghost mut order: Seq<usize> = Seq::empty();
        let mut e: usize = 0;
        while e < entries.len()
            invariant
                self.wf(),
                arith::is_measure(*score),
                forall|e: int| 0 <= e < entries@.len() ==> (#[trigger] entries@[e]) < self.nodes(),
                ef > 0,
                total == self.nodes(),
                e <= entries@.len(),
                in_step(*self, *score, query@, ef as int, visited@, frontier@, results@),
                is_order_of(*self, entries@, level as int, visited@, order),
                forall|i: int| 0 <= i < e ==> visited@[(#[trigger] entries@[i]) as int],
                forall|v: int|
                    0 <= v < total && #[trigger] visited@[v] ==> has_node(frontier@, v) || is_beyond(
                        *self,
                        *score,
                        query@,
                        ef as int,
                        results@,
                        v as usize,
                    ),
            decreases entries@.len() - e,
        {
            let node: usize = entries[e];
            let ghost prior = visited@;
            let _ = self.visit(score, query, node, ef, &mut visited, &mut frontier, &mut results);
            proof {
                assert(entries@.contains(node));
                if prior[node as int] {
                    assert(visited@ =~= prior);
                } else {
                    lemma_order(*self, entries@, level as int, prior, order, node);
                    order = order.push(node);
                }
                assert forall|i: int| 0 <= i < e + 1 implies visited@[(#[trigger] entries@[i]) as int] by {
                    if i < e {
                        assert(prior[entries@[i] as int]);
                    }
                }
                assert forall|v: int| 0 <= v < total && #[trigger] visited@[v] implies has_node(frontier@, v) || is_beyond(
                    *self,
                    *score,
                    query@,
                    ef as int,
                    results@,
                    v as usize,
                ) by {
                    if v != node {
                        assert(prior[v]);
                    } else if prior[v] {
                        assert(has_node(frontier@, v) || is_beyond(*self, *score, query@, ef as int, results@, v as usize));
                    }
                }
            }
            e += 1;
        }
        while frontier.len() > 0
            invariant
                self.wf(),
                arith::is_measure(*score),
                level < self.layers@.len(),
                ef > 0,
                total == self.nodes(),
                list_of == self.links()[level as int],
                list_of.len() == total,
                in_step(*self, *score, query@, ef as int, visited@, frontier@, results@),
                is_order_of(*self, entries@, level as int, visited@, order),
                forall|i: int| 0 <= i < entries@.len() ==> visited@[(#[trigger] entries@[i]) as int],
                forall|e: int| 0 <= e < entries@.len() ==> (#[trigger] entries@[e]) < self.nodes(),
                forall|v: int|
                    0 <= v < total && #[trigger] visited@[v] ==> has_node(frontier@, v) || looked_at(list_of, visited@, v)
                        || is_beyond(*self, *score, query@, ef as int, results@, v as usize),
            ensures
                forall|v: int|
                    0 <= v < total && #[trigger] visited@[v] ==> looked_at(list_of, visited@, v) || is_beyond(
                        *self,
                        *score,
                        query@,
                        ef as int,
                        results@,
                        v as usize,
                    ),
            decreases work_left(visited@, frontier@),
        {
            let c: NodeCandidate = frontier[0];
            if results.len() >= ef && score::value_rank(results[results.len() - 1].sort_key) < score::value_rank(
                c.sort_key,
            ) {
                proof {
                    assert forall|v: int| 0 <= v < total && #[trigger] visited@[v] implies looked_at(list_of, visited@, v)
                        || is_beyond(*self, *score, query@, ef as int, results@, v as usize) by {
                        if has_node(frontier@, v) {
                            let i = choose|i: int| 0 <= i < frontier@.len() && (#[trigger] frontier@[i]).idx == v;
                            assert(frontier@[i] == candidate_of(*self, *score, query@, v as usize));
                            assert(score::value_key(frontier@[0].sort_key) <= score::value_key(frontier@[i].sort_key));
                        }
                    }
                }
                break ;
            }
            let ghost waiting = frontier@;
            let ghost start = work_left(visited@, frontier@);
            let _ = frontier.remove(0);
            proof {
                assert(frontier@ =~= waiting.drop_first());
                assert forall|i: int| 0 <= i < frontier@.len() implies (#[trigger] frontier@[i]).idx < self.nodes()
                    && frontier@[i] == candidate_of(*self, *score, query@, frontier@[i].idx) by {
                    assert(waiting[i + 1] == frontier@[i]);
                }
                assert forall|i: int, j: int| 0 <= i <= j < frontier@.len() implies score::value_key(
                    (#[trigger] frontier@[i]).sort_key,
                ) <= score::value_key((#[trigger] frontier@[j]).sort_key) by {
                    assert(waiting[i + 1] == frontier@[i] && waiting[j + 1] == frontier@[j]);
                }
                assert forall|i: int| 0 <= i < frontier@.len() implies visited@[(#[trigger] frontier@[i]).idx as int] by {
                    assert(waiting[i + 1] == frontier@[i]);
                }
                assert forall|v: int| has_node(waiting, v) && v != c.idx implies has_node(frontier@, v) by {
                    let i = choose|i: int| 0 <= i < waiting.len() && (#[trigger] waiting[i]).idx == v;
                    assert(frontier@[i - 1].idx == v);
                }
            }
            let list: &Vec<usize> = &self.layers[level][c.idx];
            assert(list@ == list_of[c.idx as int]);
            let mut k: usize = 0;
            while k < list.len()
                invariant
                    self.wf(),
                    arith::is_measure(*score),
                    level < self.layers@.len(),
                    ef > 0,
                    total == self.nodes(),
                    list_of == self.links()[level as int],
                    list_of.len() == total,
                    c.idx < total,
                    visited@[c.idx as int],
                    list@ == list_of[c.idx as int],
                    k <= list@.len(),
                    in_step(*self, *score, query@, ef as int, visited@, frontier@, results@),
                    is_order_of(*self, entries@, level as int, visited@, order),
                    work_left(visited@, frontier@) < start,
                    forall|i: int| 0 <= i < entries@.len() ==> visited@[(#[trigger] entries@[i]) as int],
                    forall|e: int| 0 <= e < entries@.len() ==> (#[trigger] entries@[e]) < self.nodes(),
                    forall|j: int| 0 <= j < k ==> visited@[(#[trigger] list@[j]) as int],
                    forall|v: int|
                        0 <= v < total && #[trigger] visited@[v] ==> v == c.idx || has_node(frontier@, v) || looked_at(
                            list_of,
                            visited@,
                            v,
                        ) || is_beyond(*self, *score, query@, ef as int, results@, v as usize),
                decreases list@.len() - k,
            {
                let node: usize = list[k];
                let ghost prior = visited@;
                proof {
                    assert(self.links()[level as int][c.idx as int][k as int] < self.nodes());
                }
                let _ = self.visit(score, query, node, ef, &mut visited, &mut frontier, &mut results);
                proof {
                    if prior[node as int] {
                        assert(visited@ =~= prior);
                    } else {
                        assert(self.links()[level as int][c.idx as int][k as int] == node);
                        lemma_order(*self, entries@, level as int, prior, order, node);
                        order = order.push(node);
                    }
                    assert forall|v: int| 0 <= v < total && #[trigger] visited@[v] implies v == c.idx || has_node(
                        frontier@,
                        v,
                    ) || looked_at(list_of, visited@, v) || is_beyond(
                        *self,
                        *score,
                        query@,
                        ef as int,
                        results@,
                        v as usize,
                    ) by {
                        if prior[v] {
                            if looked_at(list_of, prior, v) {
                                assert(looked_at(list_of, visited@, v));
                            }
                        }
                    }
                    assert forall|j: int| 0 <= j < k + 1 implies visited@[(#[trigger] list@[j]) as int] by {
                        if j < k {
                            assert(prior[list@[j] as int]);
                        }
                    }
                    assert forall|i: int| 0 <= i < entries@.len() implies visited@[(#[trigger] entries@[i]) as int] by {
                        assert(prior[entries@[i] as int]);
                    }
                }
                k += 1;
            }
            proof {
                graph::lemma_flag_count_bound(visited@);
                assert(looked_at(list_of, visited@, c.idx as int));
            }
        }
        proof {
            assert forall|e: int| 0 <= e < entries@.len() implies order.contains(#[trigger] entries@[e]) by {
                assert(visited@[entries@[e] as int]);
            }
            assert forall|i: int| 0 <= i < results@.len() implies order.contains((#[trigger] results@[i]).idx) by {
                assert(visited@[results@[i].idx as int]);
            }
            assert forall|i: int| 0 <= i < order.len() implies visited@[(#[trigger] order[i]) as int] by {
                assert(order.contains(order[i]));
            }
            assert forall|i: int| 0 <= i < order.len() implies is_followed(*self, level as int, order, #[trigger] order[i])
                || is_beyond(*self, *score, query@, ef as int, results@, order[i]) by {
                let v = order[i];
                assert(visited@[v as int]);
                if looked_at(list_of, visited@, v as int) {
                    assert forall|k: int| 0 <= k < self.links()[level as int][v as int].len() implies order.contains(
                        #[trigger] self.links()[level as int][v as int][k],
                    ) by {
                        assert(visited@[list_of[v as int][k] as int]);
                        assert(self.links()[level as int][v as int][k] < self.nodes());
                    }
                }
            }
            assert(is_complete(*self, *score, query@, entries@, ef as int, level as int, order, results@));
        }
        results
    }

    /// Looks at nodes in turn until `patience` in a row brought nothing; zero means
    /// that it looks at all. Gives whether one of them brought something.
    fn look_through<F: Fn(&[Score], &[Score]) -> Score>(
        &self,
        score: &F,
        query: &[Score],
        nodes: &[usize],
        patience: usize,
        ef: usize,
        visited: &mut Vec<bool>,
        frontier: &mut Vec<NodeCandidate>,
        results: &mut Vec<NodeCandidate>,
        Ghost(idle): Ghost<nat>,
    ) -> (gain: bool)
        requires
            self.wf(),
            arith::is_measure(*score),
            forall|k: int| 0 <= k < nodes@.len() ==> (#[trigger] nodes@[k]) < self.nodes(),
            ef > 0,
            in_step(*self, *score, query@, ef as int, old(visited)@, old(frontier)@, old(results)@),
        ensures
            in_step(*self, *score, query@, ef as int, final(visited)@, final(frontier)@, final(results)@),
            work_left(final(visited)@, final(frontier)@) <= work_left(old(visited)@, old(frontier)@),
            looked_through(
                *self,
                *score,
                query@,
                ef as int,
                walk_of(old(visited)@, old(frontier)@, old(results)@, idle),
                nodes@,
                0,
                patience as nat,
            ) == (walk_of(final(visited)@, final(frontier)@, final(results)@, idle), gain),
    {
        let ghost goal = looked_through(
            *self,
            *score,
            query@,
            ef as int,
            walk_of(visited@, frontier@, results@, idle),
            nodes@,
            0,
            patience as nat,
        );
        let ghost start = work_left(visited@, frontier@);
        let mut gained: bool = false;
        let mut misses: usize = 0;
        let mut k: usize = 0;
        assert(nodes@.skip(0) =~= nodes@);
        while k < nodes.len() && !(patience > 0 && misses >= patience)
            invariant
                self.wf(),
                arith::is_measure(*score),
                forall|k: int| 0 <= k < nodes@.len() ==> (#[trigger] nodes@[k]) < self.nodes(),
                ef > 0,
                k <= nodes@.len(),
                misses <= k,
                in_step(*self, *score, query@, ef as int, visited@, frontier@, results@),
                work_left(visited@, frontier@) <= start,
                ({
                    let rest = looked_through(
                        *self,
                        *score,
                        query@,
                        ef as int,
                        walk_of(visited@, frontier@, results@, idle),
                        nodes@.skip(k as int),
                        misses as nat,
                        patience as nat,
                    );
                    goal == (rest.0, gained || rest.1)
                }),
            decreases nodes@.len() - k,
        {
            let ghost walk = walk_of(visited@, frontier@, results@, idle);
            let gain: bool = self.visit(score, query, nodes[k], ef, visited, frontier, results);
            proof {
                assert(nodes@.skip(k as int)[0] == nodes@[k as int]);
                assert(nodes@.skip(k as int).drop_first() =~= nodes@.skip(k + 1));
            }
            if gain {
                gained = true;
                misses = 0;
            } else {
                misses += 1;
            }
            k += 1;
        }
        gained
    }

    /// The present nodes of a layer that are nearest to a query, as far as a search
    /// finds them that is cut short.
    pub fn search_layer_limited<F: Fn(&[Score], &[Score]) -> Score>(
        &self,
        score: &F,
        query: &[Score],
        entries: &[usize],
        ef: usize,
        level: usize,
        limits: &ScanLimits,
    ) -> (r: Vec<NodeCandidate>)
        requires
            self.wf(),
            arith::is_measure(*score),
            forall|e: int| 0 <= e < entries@.len() ==> (#[trigger] entries@[e]) < self.nodes(),
            level < self.layers@.len(),
        ensures
            are_cut_results(*self, *score, query@, entries@, ef as int, level as int, *limits, r@),
    {
        let mut results: Vec<NodeCandidate> = Vec::new();
        if ef == 0 {
            return results;
        }
        let total: usize = self.len();
        let mut visited: Vec<bool> = vec![false; total];
        let mut frontier: Vec<NodeCandidate> = Vec::new();
        let ghost mut steps: nat = 0;
        proof {
            assert(visited@ =~= Seq::new(self.nodes(), |i: int| false));
            assert(frontier@ =~= Seq::empty());
            assert(results@ =~= Seq::empty());
        }
        let _ = self.look_through(
            score,
            query,
            entries,
            0,
            ef,
            &mut visited,
            &mut frontier,
            &mut results,
            Ghost(0),
        );
        let mut idle: usize = 0;
        assert(walk_of(visited@, frontier@, results@, 0) == walk_after(
            *self,
            *score,
            query@,
            entries@,
            ef as int,
            level as int,
            *limits,
            0,
        ));
        while frontier.len() > 0 && !(results.len() >= ef && score::value_rank(results[results.len() - 1].sort_key)
            < score::value_rank(frontier[0].sort_key)) && !(limits.exit > 0 && idle >= limits.exit)
            invariant
                self.wf(),
                arith::is_measure(*score),
                level < self.layers@.len(),
                ef > 0,
                total == self.nodes(),
                limits.exit == 0 ==> idle == 0,
                limits.exit > 0 ==> idle <= limits.exit,
                in_step(*self, *score, query@, ef as int, visited@, frontier@, results@),
                ({
                    let walk = walk_after(
                        *self,
                        *score,
                        query@,
                        entries@,
                        ef as int,
                        level as int,
                        *limits,
                        steps,
                    );
                    &&& walk.seen == visited@
                    &&& walk.frontier == frontier@
                    &&& walk.results == results@
                    &&& limits.exit > 0 ==> walk.idle == idle
                }),
                forall|m: nat|
                    m < steps ==> !is_over(
                        #[trigger] walk_after(
                            *self,
                            *score,
                            query@,
                            entries@,
                            ef as int,
                            level as int,
                            *limits,
                            m,
                        ),
                        ef as int,
                        *limits,
                    ),
            decreases work_left(visited@, frontier@),
        {
            let ghost walk = walk_after(
                *self,
                *score,
                query@,
                entries@,
                ef as int,
                level as int,
                *limits,
                steps,
            );
            let ghost waiting = frontier@;
            let c: NodeCandidate = frontier.remove(0);
            proof {
                assert(frontier@ =~= waiting.drop_first());
                lemma_popped(*self, *score, query@, ef as int, visited@, waiting, results@);
                assert(self.layers@[level as int]@.len() == total);
            }
            let list: &Vec<usize> = &self.layers[level][c.idx];
            let limit: usize = if limits.cap > 0 && limits.cap < list.len() {
                limits.cap
            } else {
                list.len()
            };
            let nodes: &[usize] = vstd::slice::slice_subrange(list.as_slice(), 0, limit);
            proof {
                assert(self.links()[level as int][c.idx as int] == list@);
                assert(nodes@ =~= capped(self.links()[level as int][c.idx as int], limits.cap as int));
                assert forall|k: int| 0 <= k < nodes@.len() implies (#[trigger] nodes@[k]) < self.nodes() by {
                    assert(self.links()[level as int][c.idx as int][k] == nodes@[k]);
                }
            }
            let gain: bool = self.look_through(
                score,
                query,
                nodes,
                limits.patience,
                ef,
                &mut visited,
                &mut frontier,
                &mut results,
                Ghost(walk.idle),
            );
            if limits.exit > 0 {
                idle = if gain {
                    0
                } else {
                    idle + 1
                };
            }
            proof {
                graph::lemma_flag_count_bound(visited@);
                assert(walk_of(visited@, frontier@, results@, walk.idle) == looked_through(
                    *self,
                    *score,
                    query@,
                    ef as int,
                    Walk { frontier: walk.frontier.drop_first(), ..walk },
                    nodes@,
                    0,
                    limits.patience as nat,
                ).0);
                steps = steps + 1;
            }
        }
        assert(ends_after(*self, *score, query@, entries@, ef as int, level as int, *limits, steps));
        results
    }
}

/// Taking the nearest node that waits keeps what a search holds together.
proof fn lemma_popped<F: Fn(&[Score], &[Score]) -> Score>(
    graph: HNSWIndex,
    score: F,
    query: Seq<Score>,
    ef: int,
    visited: Seq<bool>,
    waiting: Seq<NodeCandidate>,
    results: Seq<NodeCandidate>,
)
    requires
        in_step(graph, score, query, ef, visited, waiting, results),
        waiting.len() > 0,
    ensures
        in_step(graph, score, query, ef, visited, waiting.drop_first(), results),
{
    let frontier = waiting.drop_first();
    assert forall|i: int| 0 <= i < frontier.len() implies (#[trigger] frontier[i]).idx < graph.nodes() && frontier[i]
        == candidate_of(graph, score, query, frontier[i].idx) && visited[frontier[i].idx as int] by {
        assert(waiting[i + 1] == frontier[i]);
    }
    assert forall|i: int, j: int| 0 <= i <= j < frontier.len() implies score::value_key(
        (#[trigger] frontier[i]).sort_key,
    ) <= score::value_key((#[trigger] frontier[j]).sort_key) by {
        assert(waiting[i + 1] == frontier[i] && waiting[j + 1] == frontier[j]);
    }
}

/// What a search holds.
spec fn walk_of(seen: Seq<bool>, frontier: Seq<NodeCandidate>, results: Seq<NodeCandidate>, idle: nat) -> Walk {
    Walk { seen, frontier, results, idle }
}

/// How far a search is from its end, at most.
spec fn work_left(visited: Seq<bool>, frontier: Seq<NodeCandidate>) -> int {
    2 * (visited.len() - graph::flag_count(visited)) + frontier.len()
}

/// Whether what a search holds fits together: the nodes seen, those whose neighbours
/// are to be looked at, and the best results among those seen.
spec fn in_step<F: Fn(&[Score], &[Score]) -> Score>(
    graph: HNSWIndex,
    score: F,
    query: Seq<Score>,
    ef: int,
    visited: Seq<bool>,
    frontier: Seq<NodeCandidate>,
    results: Seq<NodeCandidate>,
) -> bool {
    &&& visited.len() == graph.nodes()
    &&& are_candidates(graph, score, query, frontier)
    &&& keys_ascend(frontier)
    &&& forall|i: int| 0 <= i < frontier.len() ==> visited[(#[trigger] frontier[i]).idx as int]
    &&& are_candidates(graph, score, query, results)
    &&& keys_ascend(results)
    &&& nodes_differ(results)
    &&& results.len() <= ef
    &&& forall|i: int|
        0 <= i < results.len() ==> visited[(#[trigger] results[i]).idx as int] && !graph.deleted@[results[i].idx as int]
    &&& forall|v: int|
        0 <= v < visited.len() && #[trigger] visited[v] && !graph.deleted@[v] ==> has_node(results, v) || is_beyond(
            graph,
            score,
            query,
            ef,
            results,
            v as usize,
        )
}

/// Whether an order names the nodes that were seen, each after one that leads to it.
spec fn is_order_of(graph: HNSWIndex, entries: Seq<usize>, level: int, visited: Seq<bool>, order: Seq<usize>) -> bool {
    &&& is_walk(graph, entries, level, order)
    &&& forall|v: usize| v < visited.len() ==> (visited[v as int] <==> #[trigger] order.contains(v))
}

/// One more node keeps an order, where it is an entry or a neighbour of a node seen.
proof fn lemma_order(
    graph: HNSWIndex,
    entries: Seq<usize>,
    level: int,
    visited: Seq<bool>,
    order: Seq<usize>,
    node: usize,
)
    requires
        visited.len() == graph.nodes(),
        is_order_of(graph, entries, level, visited, order),
        node < graph.nodes(),
        entries.contains(node) || exists|p: usize, k: int|
            p < visited.len() && visited[p as int] && 0 <= k < graph.links()[level][p as int].len()
                && #[trigger] graph.links()[level][p as int][k] == node,
    ensures
        is_order_of(graph, entries, level, visited.update(node as int, true), order.push(node)),
{
    let after = order.push(node);
    let seen = visited.update(node as int, true);
    assert forall|i: int| 0 <= i < after.len() implies (#[trigger] after[i]) < graph.nodes() && is_reached(
        graph,
        entries,
        level,
        after,
        i,
    ) by {
        if i < order.len() {
            assert(after[i] == order[i]);
            assert(is_reached(graph, entries, level, order, i));
            if !entries.contains(order[i]) {
                let (j, k): (int, int) = choose|j: int, k: int|
                    0 <= j < i && 0 <= k < graph.links()[level][order[j] as int].len()
                        && #[trigger] graph.links()[level][order[j] as int][k] == order[i];
                assert(after[j] == order[j]);
                assert(graph.links()[level][after[j] as int][k] == after[i]);
            }
        } else if !entries.contains(node) {
            let (p, k): (usize, int) = choose|p: usize, k: int|
                p < visited.len() && visited[p as int] && 0 <= k < graph.links()[level][p as int].len()
                    && #[trigger] graph.links()[level][p as int][k] == node;
            assert(order.contains(p));
            let j = choose|j: int| 0 <= j < order.len() && order[j] == p;
            assert(after[j] == p);
            assert(graph.links()[level][after[j] as int][k] == after[i]);
        }
    }
    assert forall|v: usize| v < seen.len() implies (seen[v as int] <==> #[trigger] after.contains(v)) by {
        if order.contains(v) {
            let j = choose|j: int| 0 <= j < order.len() && order[j] == v;
            assert(after[j] == v);
        }
        if v == node {
            assert(after[order.len() as int] == v);
        }
        if after.contains(v) && v != node {
            let j = choose|j: int| 0 <= j < after.len() && after[j] == v;
            assert(order[j] == v);
        }
    }
}

/// The points of nodes.
pub open spec fn points_of(graph: HNSWIndex, list: Seq<NodeCandidate>) -> Seq<ScoredPoint> {
    list.map_values(
        |c: NodeCandidate|
            ScoredPoint { id: graph.ids@[c.idx as int], raw_score: c.raw_score, sort_key: c.sort_key },
    )
}

/// Whether a point comes before another: by their keys, and by their ids where the
/// keys are equal.
pub open spec fn point_leq(a: ScoredPoint, b: ScoredPoint) -> bool {
    score::value_key(a.sort_key) < score::value_key(b.sort_key) || (score::value_key(a.sort_key) == score::value_key(
        b.sort_key,
    ) && a.id <= b.id)
}

/// Whether points stand in their order.
pub open spec fn points_ascend(points: Seq<ScoredPoint>) -> bool {
    forall|i: int, j: int| 0 <= i <= j < points.len() ==> point_leq(#[trigger] points[i], #[trigger] points[j])
}

/// Whether these are the first of some points, in their order.
pub open spec fn are_first(all: Seq<ScoredPoint>, top_k: int, points: Seq<ScoredPoint>) -> bool {
    exists|sorted: Seq<ScoredPoint>|
        #[trigger] points_ascend(sorted) && sorted.to_multiset() == all.to_multiset() && points == if top_k
            < sorted.len() {
            sorted.take(top_k)
        } else {
            sorted
        }
}

/// Puts a point in its place.
fn insert_point(points: &mut Vec<ScoredPoint>, p: ScoredPoint) -> (at: usize)
    requires
        points_ascend(old(points)@),
    ensures
        at <= old(points)@.len(),
        final(points)@ == old(points)@.insert(at as int, p),
        points_ascend(final(points)@),
{
    let ghost before = points@;
    let mut at: usize = points.len();
    let rank: i64 = score::value_rank(p.sort_key);
    while at > 0 && (score::value_rank(points[at - 1].sort_key) > rank || (score::value_rank(points[at - 1].sort_key)
        == rank && points[at - 1].id > p.id))
        invariant
            at <= points@.len(),
            points@ == before,
            rank == score::value_key(p.sort_key),
            forall|i: int| at <= i < before.len() ==> point_leq(p, #[trigger] before[i]),
        decreases at,
    {
        at -= 1;
    }
    points.insert(at, p);
    proof {
        let after = points@;
        assert(after =~= before.insert(at as int, p));
        assert forall|i: int, j: int| 0 <= i <= j < after.len() implies point_leq(
            #[trigger] after[i],
            #[trigger] after[j],
        ) by {
            let a = if i < at { i } else { i - 1 };
            let b = if j < at { j } else { j - 1 };
            if i != at && j != at {
                assert(after[i] == before[a] && after[j] == before[b]);
                assert(point_leq(before[a], before[b]));
            } else if i == at && j > at {
                assert(after[j] == before[b]);
            } else if j == at && i < at {
                assert(after[i] == before[i]);
                assert(point_leq(before[i], before[at - 1]));
            }
        }
    }
    at
}

/// How many results a search keeps while it runs: at least as many as it returns.
pub open spec fn list_size(graph: HNSWIndex, top_k: usize, options: SearchRuntimeOptions) -> usize {
    let ef = match options.ef_search {
        Some(ef) => ef,
        None => graph.ef,
    };
    let wide = match options.expansion_mult {
        Some(mult) => if mult > 1 {
            if ef * mult <= usize::MAX {
                (ef * mult) as usize
            } else {
                usize::MAX
            }
        } else {
            ef
        },
        None => ef,
    };
    if wide > top_k {
        wide
    } else {
        top_k
    }
}

/// What the options say of how a search in the lowest layer is cut short.
pub open spec fn limits_of(options: SearchRuntimeOptions) -> ScanLimits {
    ScanLimits {
        cap: match options.neighbor_scan_cap_level0 {
            Some(n) => n,
            None => 0,
        },
        patience: match options.neighbor_scan_patience {
            Some(n) => n,
            None => 0,
        },
        exit: match options.early_exit_patience {
            Some(n) => n,
            None => 0,
        },
    }
}

/// Whether a search with such options may have these results in the lowest layer.
pub open spec fn may_result<F: Fn(&[Score], &[Score]) -> Score>(
    graph: HNSWIndex,
    score: F,
    query: Seq<Score>,
    entries: Seq<usize>,
    ef: int,
    options: SearchRuntimeOptions,
    list: Seq<NodeCandidate>,
) -> bool {
    let limits = limits_of(options);
    if limits.cap == 0 && limits.patience == 0 && limits.exit == 0 {
        are_results(graph, score, query, entries, ef, 0, list)
    } else {
        are_cut_results(graph, score, query, entries, ef, 0, limits, list)
    }
}

/// How many nodes enter the lowest layer: one, or as many as asked for where there
/// is a layer above to take them from.
pub open spec fn seed_count(graph: HNSWIndex, options: SearchRuntimeOptions) -> usize {
    match options.num_entry_seeds {
        Some(seeds) => if seeds > 1 && graph.top_level() >= 1 && graph.layers@.len() > 1 {
            seeds
        } else {
            1
        },
        None => 1,
    }
}

/// Where the walk through the layers above a layer ends.
pub open spec fn walked<F: Fn(&[Score], &[Score]) -> Score>(
    graph: HNSWIndex,
    score: F,
    query: Seq<Score>,
    entry: int,
    level: int,
) -> usize {
    descend::descended(graph.space(), score, graph.links(), query, entry, graph.top_level(), level) as usize
}

/// Whether a search may enter the lowest layer at these nodes: where the walk
/// through the layers above leads, or at the results of a search in the layer above
/// where several are asked for and some are found.
pub open spec fn may_enter<F: Fn(&[Score], &[Score]) -> Score>(
    graph: HNSWIndex,
    score: F,
    query: Seq<Score>,
    entry: int,
    options: SearchRuntimeOptions,
    entries: Seq<usize>,
) -> bool {
    let single = seq![walked(graph, score, query, entry, 0)];
    if seed_count(graph, options) == 1 {
        entries == single
    } else {
        exists|seeds: Seq<NodeCandidate>|
            #[trigger] are_results(
                graph,
                score,
                query,
                seq![walked(graph, score, query, entry, 1)],
                seed_count(graph, options) as int,
                1,
                seeds,
            ) && entries == if seeds.len() > 0 {
                nodes_of(seeds)
            } else {
                single
            }
    }
}

/// The nodes of candidates.
pub open spec fn nodes_of(list: Seq<NodeCandidate>) -> Seq<usize> {
    list.map_values(|c: NodeCandidate| c.idx)
}

/// The size of the list of a second search, where one is made: where the best
/// result of the first is farther than a threshold.
pub open spec fn second_size(top_k: usize, options: SearchRuntimeOptions, first: Seq<NodeCandidate>) -> Option<usize> {
    match (options.adaptive_ef_high, options.adaptive_ef_score_threshold) {
        (Some(ef), Some(threshold)) => if first.len() > 0 && score::less(threshold, first[0].sort_key) {
            Some(
                if ef > top_k {
                    ef
                } else {
                    top_k
                },
            )
        } else {
            None
        },
        _ => None,
    }
}

/// Whether a search that entered the lowest layer at these nodes may end in this
/// list.
pub open spec fn may_end<F: Fn(&[Score], &[Score]) -> Score>(
    graph: HNSWIndex,
    score: F,
    query: Seq<Score>,
    top_k: usize,
    options: SearchRuntimeOptions,
    entries: Seq<usize>,
    list: Seq<NodeCandidate>,
) -> bool {
    exists|first: Seq<NodeCandidate>|
        #[trigger] may_result(
            graph,
            score,
            query,
            entries,
            list_size(graph, top_k, options) as int,
            options,
            first,
        ) && match second_size(top_k, options, first) {
            Some(ef) => may_result(graph, score, query, entries, ef as int, options, list),
            None => list == first,
        }
}

/// Whether these are the points that a search may find: the first among the results
/// in the lowest layer, points of equal keys in the order of their ids.
pub open spec fn may_answer<F: Fn(&[Score], &[Score]) -> Score>(
    graph: HNSWIndex,
    score: F,
    query: Seq<Score>,
    top_k: usize,
    options: SearchRuntimeOptions,
    points: Seq<ScoredPoint>,
) -> bool {
    match graph.entry() {
        None => points.len() == 0,
        Some(entry) => exists|entries: Seq<usize>, list: Seq<NodeCandidate>|
            may_enter(graph, score, query, entry, options, entries) && #[trigger] may_end(
                graph,
                score,
                query,
                top_k,
                options,
                entries,
                list,
            ) && are_first(points_of(graph, list), top_k as int, points),
    }
}

/// The options of a search that names none.
pub open spec fn no_options() -> SearchRuntimeOptions {
    SearchRuntimeOptions {
        ef_search: None,
        neighbor_scan_cap_level0: None,
        neighbor_scan_patience: None,
        early_exit_patience: None,
        expansion_mult: None,
        num_entry_seeds: None,
        adaptive_ef_high: None,
        adaptive_ef_score_threshold: None,
    }
}

impl HNSWIndex {
    /// The nodes at which a search enters the lowest layer.
    fn entry_nodes<F: Fn(&[Score], &[Score]) -> Score>(
        &self,
        score: &F,
        query: &[Score],
        entry: usize,
        options: &SearchRuntimeOptions,
    ) -> (r: Vec<usize>)
        requires
            self.wf(),
            arith::is_measure(*score),
            entry < self.nodes(),
        ensures
            may_enter(*self, *score, query@, entry as int, *options, r@),
            forall|e: int| 0 <= e < r@.len() ==> (#[trigger] r@[e]) < self.nodes(),
    {
        let top: usize = self.current_max_level();
        let mut entries: Vec<usize> = Vec::new();
        let wanted: usize = match options.num_entry_seeds {
            Some(seeds) => if seeds > 1 && top >= 1 && self.layers.len() > 1 {
                seeds
            } else {
                1
            },
            None => 1,
        };
        if wanted > 1 {
            let upper: usize = self.descend(score, query, entry, top, 1);
            let mut start: Vec<usize> = Vec::new();
            start.push(upper);
            let seeds: Vec<NodeCandidate> = self.search_layer_unfiltered(score, query, start.as_slice(), wanted, 1);
            assert(start@ =~= seq![walked(*self, *score, query@, entry as int, 1)]);
            if seeds.len() > 0 {
                let mut i: usize = 0;
                while i < seeds.len()
                    invariant
                        i <= seeds@.len(),
                        link::within(seeds@, self.nodes()),
                        entries@ == nodes_of(seeds@).take(i as int),
                        forall|e: int| 0 <= e < entries@.len() ==> (#[trigger] entries@[e]) < self.nodes(),
                    decreases seeds@.len() - i,
                {
                    assert(seeds@[i as int].idx < self.nodes());
                    entries.push(seeds[i].idx);
                    assert(nodes_of(seeds@).take(i + 1) =~= nodes_of(seeds@).take(i as int).push(seeds@[i as int].idx));
                    i += 1;
                }
                assert(entries@ =~= nodes_of(seeds@));
                return entries;
            }
        }
        let node: usize = self.descend(score, query, entry, top, 0);
        entries.push(node);
        assert(entries@ =~= seq![walked(*self, *score, query@, entry as int, 0)]);
        entries
    }

    /// The points nearest to a query, as far as they are found.
    pub fn search<F: Fn(&[Score], &[Score]) -> Score>(&self, score: &F, query: &[Score], top_k: usize) -> (r: Result<
        Vec<ScoredPoint>,
        DBError,
    >)
        requires
            self.wf(),
            arith::is_measure(*score),
        ensures
            query@.len() != self.dim ==> r == Err::<Vec<ScoredPoint>, DBError>(
                DBError::VectorLengthMismatch { expected: self.dim, actual: query@.len() as usize },
            ),
            query@.len() == self.dim ==> r is Ok && may_answer(*self, *score, query@, top_k, no_options(), r->Ok_0@),
    {
        let options: SearchRuntimeOptions = SearchRuntimeOptions::default();
        assert(options == no_options());
        self.search_with_options(score, query, top_k, &options)
    }

    /// The results of a search in the lowest layer with such options.
    fn search_lowest<F: Fn(&[Score], &[Score]) -> Score>(
        &self,
        score: &F,
        query: &[Score],
        entries: &[usize],
        ef: usize,
        options: &SearchRuntimeOptions,
    ) -> (r: Vec<NodeCandidate>)
        requires
            self.wf(),
            arith::is_measure(*score),
            forall|e: int| 0 <= e < entries@.len() ==> (#[trigger] entries@[e]) < self.nodes(),
        ensures
            may_result(*self, *score, query@, entries@, ef as int, *options, r@),
            link::within(r@, self.nodes()),
    {
        let limits: ScanLimits = ScanLimits {
            cap: match options.neighbor_scan_cap_level0 {
                Some(n) => n,
                None => 0,
            },
            patience: match options.neighbor_scan_patience {
                Some(n) => n,
                None => 0,
            },
            exit: match options.early_exit_patience {
                Some(n) => n,
                None => 0,
            },
        };
        assert(limits == limits_of(*options));
        if limits.cap == 0 && limits.patience == 0 && limits.exit == 0 {
            self.search_layer_unfiltered(score, query, entries, ef, 0)
        } else {
            self.search_layer_limited(score, query, entries, ef, 0, &limits)
        }
    }

    /// The points nearest to a query, as far as they are found with such options.
    pub fn search_with_options<F: Fn(&[Score], &[Score]) -> Score>(
        &self,
        score: &F,
        query: &[Score],
        top_k: usize,
        options: &SearchRuntimeOptions,
    ) -> (r: Result<Vec<ScoredPoint>, DBError>)
        requires
            self.wf(),
            arith::is_measure(*score),
        ensures
            query@.len() != self.dim ==> r == Err::<Vec<ScoredPoint>, DBError>(
                DBError::VectorLengthMismatch { expected: self.dim, actual: query@.len() as usize },
            ),
            query@.len() == self.dim ==> r is Ok && may_answer(*self, *score, query@, top_k, *options, r->Ok_0@),
    {
        if let Err(e) = self.validate_dim(query) {
            return Err(e);
        }
        let mut points: Vec<ScoredPoint> = Vec::new();
        let entry: usize = match self.entry_point() {
            Some(entry) => entry,
            None => {
                return Ok(points);
            },
        };
        let ef: usize = match options.ef_search {
            Some(ef) => ef,
            None => self.ef,
        };
        let wide: usize = match options.expansion_mult {
            Some(mult) => if mult > 1 {
                match ef.checked_mul(mult) {
                    Some(n) => n,
                    None => usize::MAX,
                }
            } else {
                ef
            },
            None => ef,
        };
        let size: usize = if wide > top_k {
            wide
        } else {
            top_k
        };
        let entries: Vec<usize> = self.entry_nodes(score, query, entry, options);
        let mut list: Vec<NodeCandidate> = self.search_lowest(score, query, entries.as_slice(), size, options);
        let ghost first = list@;
        assert(may_result(
            *self,
            *score,
            query@,
            entries@,
            list_size(*self, top_k, *options) as int,
            *options,
            first,
        ));
        if let (Some(high), Some(threshold)) = (options.adaptive_ef_high, options.adaptive_ef_score_threshold) {
            if list.len() > 0 && score::is_less(threshold, list[0].sort_key) {
                let again: usize = if high > top_k {
                    high
                } else {
                    top_k
                };
                list = self.search_lowest(score, query, entries.as_slice(), again, options);
            }
        }
        assert(may_end(*self, *score, query@, top_k, *options, entries@, list@));
        let ghost all = points_of(*self, list@);
        assert(points@ =~= all.take(0));
        let mut i: usize = 0;
        while i < list.len()
            invariant
                self.wf(),
                i <= list@.len(),
                link::within(list@, self.nodes()),
                all == points_of(*self, list@),
                points_ascend(points@),
                points@.to_multiset() == all.take(i as int).to_multiset(),
            decreases list@.len() - i,
        {
            assert(list@[i as int].idx < self.nodes());
            let point: ScoredPoint = ScoredPoint {
                id: self.point_id(list[i].idx),
                raw_score: list[i].raw_score,
                sort_key: list[i].sort_key,
            };
            let ghost before = points@;
            let at: usize = insert_point(&mut points, point);
            proof {
                broadcast use vstd::seq_lib::to_multiset_build, vstd::seq_lib::to_multiset_insert;

                assert(all.take(i + 1) =~= all.take(i as int).push(point));
                assert(before.insert(at as int, point).to_multiset() == before.to_multiset().insert(point));
            }
            i += 1;
        }
        let ghost sorted = points@;
        assert(all.take(i as int) =~= all);
        points.truncate(top_k);
        proof {
            assert(points@ =~= if top_k < sorted.len() {
                sorted.take(top_k as int)
            } else {
                sorted
            });
            assert(points_ascend(sorted));
            assert(are_first(points_of(*self, list@), top_k as int, points@));
        }
        Ok(points)
    }
}

/// What a search finds are present points of the graph with their scores, the
/// nearest first, of equally near ones the one with the smaller id, none twice, and
/// no more than asked for.
#[verifier::spinoff_prover]
pub proof fn law_found_points<F: Fn(&[Score], &[Score]) -> Score>(
    graph: HNSWIndex,
    score: F,
    query: Seq<Score>,
    top_k: usize,
    options: SearchRuntimeOptions,
    points: Seq<ScoredPoint>,
    i: int,
)
    requires
        graph.wf(),
        may_answer(graph, score, query, top_k, options, points),
        0 <= i < points.len(),
    ensures
        points.len() <= top_k,
        graph.node_of(points[i].id) is Some,
        ({
            let node = graph.node_of(points[i].id)->0;
            &&& !graph.deleted@[node]
            &&& points[i].raw_score == arith::measure(score, query, graph.vectors.vectors()[node])
            &&& points[i].sort_key == graph::order_key(graph.metric, points[i].raw_score)
        }),
        forall|j: int|
            i < j < points.len() ==> points[i].id != (#[trigger] points[j]).id && point_leq(points[i], points[j]),
{
    let entry = graph.entry()->0;
    let (entries, list): (Seq<usize>, Seq<NodeCandidate>) = choose|
        entries: Seq<usize>,
        list: Seq<NodeCandidate>,
    |
        may_enter(graph, score, query, entry, options, entries) && #[trigger] may_end(
            graph,
            score,
            query,
            top_k,
            options,
            entries,
            list,
        ) && are_first(points_of(graph, list), top_k as int, points);
    lemma_end(graph, score, query, top_k, options, entries, list);
    let all = points_of(graph, list);
    let sorted = choose|sorted: Seq<ScoredPoint>|
        #[trigger] points_ascend(sorted) && sorted.to_multiset() == all.to_multiset() && points == if top_k
            < sorted.len() {
            sorted.take(top_k as int)
        } else {
            sorted
        };
    lemma_points_of(graph, list);
    all.lemma_multiset_has_no_duplicates();
    sorted.lemma_multiset_has_no_duplicates_conv();
    lemma_sorted_from(all, sorted, i);
    let a = choose|a: int| 0 <= a < all.len() && all[a] == sorted[i];
    assert(list[a].idx < graph.nodes());
    assert(graph.alloc.idx_to_point@[list[a].idx as int] == points[i].id);
    assert forall|j: int| i < j < points.len() implies points[i].id != (#[trigger] points[j]).id && point_leq(
        points[i],
        points[j],
    ) by {
        assert(point_leq(sorted[i], sorted[j]));
        lemma_sorted_from(all, sorted, j);
        let b = choose|b: int| 0 <= b < all.len() && all[b] == sorted[j];
        assert(a != b) by {
            if a == b {
                assert(sorted[i] == sorted[j]);
            }
        }
        assert(all[a].id != all[b].id);
    }
}

/// A list in which a search ends holds present nodes with their scores, none twice.
proof fn lemma_end<F: Fn(&[Score], &[Score]) -> Score>(
    graph: HNSWIndex,
    score: F,
    query: Seq<Score>,
    top_k: usize,
    options: SearchRuntimeOptions,
    entries: Seq<usize>,
    list: Seq<NodeCandidate>,
)
    requires
        may_end(graph, score, query, top_k, options, entries, list),
    ensures
        are_candidates(graph, score, query, list),
        link::within(list, graph.nodes()),
        nodes_differ(list),
        forall|i: int| 0 <= i < list.len() ==> !graph.deleted@[(#[trigger] list[i]).idx as int],
{
    let first = choose|first: Seq<NodeCandidate>|
        #[trigger] may_result(
            graph,
            score,
            query,
            entries,
            list_size(graph, top_k, options) as int,
            options,
            first,
        ) && match second_size(top_k, options, first) {
            Some(ef) => may_result(graph, score, query, entries, ef as int, options, list),
            None => list == first,
        };
}

/// The points of different nodes have different ids.
proof fn lemma_points_of(graph: HNSWIndex, list: Seq<NodeCandidate>)
    requires
        graph.wf(),
        link::within(list, graph.nodes()),
        nodes_differ(list),
    ensures
        points_of(graph, list).no_duplicates(),
        forall|i: int, j: int|
            0 <= i < list.len() && 0 <= j < list.len() && i != j ==> (#[trigger] points_of(graph, list)[i]).id != (
            #[trigger] points_of(graph, list)[j]).id,
{
    let all = points_of(graph, list);
    assert forall|i: int, j: int| 0 <= i < list.len() && 0 <= j < list.len() && i != j implies (#[trigger] all[i]).id
        != (#[trigger] all[j]).id by {
        assert(list[i].idx != list[j].idx);
        assert(list[i].idx < graph.nodes() && list[j].idx < graph.nodes());
        assert(graph.alloc.idx_to_point@[list[i].idx as int] == all[i].id);
        assert(graph.alloc.idx_to_point@[list[j].idx as int] == all[j].id);
    }
}

proof fn lemma_sorted_from(all: Seq<ScoredPoint>, sorted: Seq<ScoredPoint>, i: int)
    requires
        sorted.to_multiset() == all.to_multiset(),
        0 <= i < sorted.len(),
    ensures
        exists|a: int| 0 <= a < all.len() && all[a] == sorted[i],
{
    broadcast use vstd::seq_lib::group_to_multiset_ensures;

    assert(sorted.contains(sorted[i]));
    assert(all.to_multiset().count(sorted[i]) > 0);
    assert(all.contains(sorted[i]));
}

/// Whether a path leads from an entry over neighbours.
pub open spec fn is_path(graph: HNSWIndex, entries: Seq<usize>, level: int, path: Seq<usize>) -> bool {
    &&& path.len() > 0
    &&& entries.contains(path[0])
    &&& forall|i: int| 0 < i < path.len() ==> graph.links()[level][path[i - 1] as int].contains(#[trigger] path[i])
}

/// A list of results that is not full misses nothing: it holds every present node to
/// which a path leads from an entry.
pub proof fn law_short_lists_miss_nothing<F: Fn(&[Score], &[Score]) -> Score>(
    graph: HNSWIndex,
    score: F,
    query: Seq<Score>,
    entries: Seq<usize>,
    ef: int,
    level: int,
    list: Seq<NodeCandidate>,
    path: Seq<usize>,
)
    requires
        are_results(graph, score, query, entries, ef, level, list),
        list.len() < ef,
        is_path(graph, entries, level, path),
        !graph.deleted@[path.last() as int],
    ensures
        has_node(list, path.last() as int),
{
    let order = choose|order: Seq<usize>|
        is_walk(graph, entries, level, order) && #[trigger] is_complete(
            graph,
            score,
            query,
            entries,
            ef,
            level,
            order,
            list,
        );
    lemma_path_is_followed(graph, score, query, entries, ef, level, order, list, path);
    let i = choose|i: int| 0 <= i < order.len() && order[i] == path.last();
    assert(order[i] == path.last());
}

proof fn lemma_path_is_followed<F: Fn(&[Score], &[Score]) -> Score>(
    graph: HNSWIndex,
    score: F,
    query: Seq<Score>,
    entries: Seq<usize>,
    ef: int,
    level: int,
    order: Seq<usize>,
    list: Seq<NodeCandidate>,
    path: Seq<usize>,
)
    requires
        is_complete(graph, score, query, entries, ef, level, order, list),
        list.len() < ef,
        is_path(graph, entries, level, path),
    ensures
        order.contains(path.last()),
    decreases path.len(),
{
    if path.len() == 1 {
        let e = choose|e: int| 0 <= e < entries.len() && entries[e] == path[0];
        assert(order.contains(entries[e]));
    } else {
        let rest = path.drop_last();
        assert forall|i: int| 0 < i < rest.len() implies graph.links()[level][rest[i - 1] as int].contains(
            #[trigger] rest[i],
        ) by {
            assert(path[i] == rest[i]);
        }
        lemma_path_is_followed(graph, score, query, entries, ef, level, order, list, rest);
        let i = choose|i: int| 0 <= i < order.len() && order[i] == rest.last();
        assert(is_followed(graph, level, order, order[i]));
        let last = path[path.len() - 1];
        assert(graph.links()[level][path[path.len() - 2] as int].contains(last));
        let k = choose|k: int|
            0 <= k < graph.links()[level][order[i] as int].len() && graph.links()[level][order[i] as int][k] == last;
        assert(order.contains(graph.links()[level][order[i] as int][k]));
    }
}

/// Whether all neighbours of a node were seen.
spec fn looked_at(lists: Seq<Seq<usize>>, seen: Seq<bool>, node: int) -> bool {
    forall|k: int| 0 <= k < lists[node].len() ==> seen[(#[trigger] lists[node][k]) as int]
}

} // verus!
