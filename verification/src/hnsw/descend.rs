//! The greedy walk towards a query.

use vstd::prelude::*;
use crate::arith;
use crate::hnsw::graph;
use crate::hnsw::graph::HNSWIndex;
use crate::hnsw::space::Space;
use crate::hnsw::types::PointId;
use crate::score;
use crate::score::Score;

verus! {

/// How many steps a greedy walk may take.
pub const MAX_STEPS: usize = 1000;

/// The key of a node from a query.
pub open spec fn query_key<F: Fn(&[Score], &[Score]) -> Score>(
    space: Space,
    score: F,
    query: Seq<Score>,
    node: int,
) -> Score {
    graph::order_key(space.metric, arith::measure(score, query, space.vectors[node]))
}

/// The first node of a list that is not deleted and closer to the query than
/// `current`.
pub open spec fn first_better<F: Fn(&[Score], &[Score]) -> Score>(
    space: Space,
    score: F,
    query: Seq<Score>,
    current: int,
    list: Seq<usize>,
) -> Option<int>
    decreases list.len(),
{
    if list.len() == 0 {
        None
    } else {
        match first_better(space, score, query, current, list.drop_last()) {
            Some(node) => Some(node),
            None => if !space.deleted[list.last() as int] && score::less(
                query_key(space, score, query, list.last() as int),
                query_key(space, score, query, current),
            ) {
                Some(list.last() as int)
            } else {
                None
            },
        }
    }
}

/// Where a greedy walk through a layer ends after at most `steps` steps.
pub open spec fn walked<F: Fn(&[Score], &[Score]) -> Score>(
    space: Space,
    score: F,
    layer: Seq<Seq<usize>>,
    query: Seq<Score>,
    current: int,
    steps: nat,
) -> int
    decreases steps,
{
    if steps == 0 {
        current
    } else {
        match first_better(space, score, query, current, layer[current]) {
            Some(next) => walked(space, score, layer, query, next, (steps - 1) as nat),
            None => current,
        }
    }
}

/// Where a greedy walk through a layer ends; where it started if there is no such
/// layer or node.
pub open spec fn greedy<F: Fn(&[Score], &[Score]) -> Score>(
    space: Space,
    score: F,
    layers: Seq<Seq<Seq<usize>>>,
    level: int,
    query: Seq<Score>,
    entry: int,
) -> int {
    if level < layers.len() && entry < space.vectors.len() {
        walked(space, score, layers[level], query, entry, MAX_STEPS as nat)
    } else {
        entry
    }
}

/// Where greedy walks end that go through the layers from `top` down to the one
/// above `level`.
pub open spec fn descended<F: Fn(&[Score], &[Score]) -> Score>(
    space: Space,
    score: F,
    layers: Seq<Seq<Seq<usize>>>,
    query: Seq<Score>,
    entry: int,
    top: int,
    level: int,
) -> int
    decreases top - level,
{
    if top <= level {
        entry
    } else {
        descended(space, score, layers, query, greedy(space, score, layers, top, query, entry), top - 1, level)
    }
}

proof fn lemma_first_better<F: Fn(&[Score], &[Score]) -> Score>(
    space: Space,
    score: F,
    query: Seq<Score>,
    current: int,
    list: Seq<usize>,
)
    ensures
        first_better(space, score, query, current, list) matches Some(node) ==> {
            &&& exists|k: int| 0 <= k < list.len() && #[trigger] list[k] == node
            &&& !space.deleted[node]
            &&& score::less(query_key(space, score, query, node), query_key(space, score, query, current))
        },
    decreases list.len(),
{
    if list.len() > 0 {
        let rest = list.drop_last();
        lemma_first_better(space, score, query, current, rest);
        if first_better(space, score, query, current, rest) is Some {
            let node = first_better(space, score, query, current, rest)->0;
            let k = choose|k: int| 0 <= k < rest.len() && #[trigger] rest[k] == node;
            assert(list[k] == node);
        } else {
            assert(list[list.len() - 1] == list.last());
        }
    }
}

/// A greedy walk never ends farther from the query than it started, and moves to
/// nodes only that are not deleted.
pub proof fn law_walk_gets_no_farther<F: Fn(&[Score], &[Score]) -> Score>(
    space: Space,
    score: F,
    layer: Seq<Seq<usize>>,
    query: Seq<Score>,
    current: int,
    steps: nat,
)
    ensures
        ({
            let end = walked(space, score, layer, query, current, steps);
            end == current || (!space.deleted[end] && score::less(
                query_key(space, score, query, end),
                query_key(space, score, query, current),
            ))
        }),
    decreases steps,
{
    if steps > 0 {
        lemma_first_better(space, score, query, current, layer[current]);
        if let Some(next) = first_better(space, score, query, current, layer[current]) {
            law_walk_gets_no_farther(space, score, layer, query, next, (steps - 1) as nat);
        }
    }
}

impl HNSWIndex {
    /// The key of a node from a query.
    fn query_score<F: Fn(&[Score], &[Score]) -> Score>(&self, score: &F, query: &[Score], node: usize) -> (r: Score)
        requires
            self.wf(),
            arith::is_measure(*score),
            node < self.nodes(),
        ensures
            r == query_key(self.space(), *score, query@, node as int),
    {
        self.normalize_score(arith::apply_measure(score, query, self.vector_slice(node)))
    }

    /// The first neighbour of a node that is not deleted and closer to the query.
    fn step<F: Fn(&[Score], &[Score]) -> Score>(
        &self,
        score: &F,
        query: &[Score],
        current: usize,
        level: usize,
    ) -> (r: Option<usize>)
        requires
            self.wf(),
            arith::is_measure(*score),
            level < self.layers@.len(),
            current < self.nodes(),
        ensures
            r is Some <==> first_better(
                self.space(),
                *score,
                query@,
                current as int,
                self.links()[level as int][current as int],
            ) is Some,
            r is Some ==> r->0 == first_better(
                self.space(),
                *score,
                query@,
                current as int,
                self.links()[level as int][current as int],
            )->0 && r->0 < self.nodes(),
    {
        let ghost list = self.links()[level as int][current as int];
        assert(self.layers@[level as int]@.len() == self.nodes());
        let here: Score = self.query_score(score, query, current);
        let neighbors: &Vec<usize> = &self.layers[level][current];
        assert(neighbors@ == list);
        let mut k: usize = 0;
        while k < neighbors.len()
            invariant
                k <= neighbors@.len(),
                neighbors@ == list,
                list == self.links()[level as int][current as int],
                self.wf(),
                arith::is_measure(*score),
                level < self.layers@.len(),
                self.layers@[level as int]@.len() == self.nodes(),
                current < self.nodes(),
                here == query_key(self.space(), *score, query@, current as int),
                first_better(self.space(), *score, query@, current as int, list.take(k as int)) is None,
            decreases neighbors@.len() - k,
        {
            let neighbor: usize = neighbors[k];
            assert(self.links()[level as int][current as int][k as int] < self.nodes());
            assert(list.take(k + 1).drop_last() =~= list.take(k as int));
            assert(list.take(k + 1).last() == neighbor);
            if !self.deleted[neighbor] {
                let there: Score = self.query_score(score, query, neighbor);
                if score::is_less(there, here) {
                    proof {
                        lemma_first_found(self.space(), *score, query@, current as int, list, k + 1);
                    }
                    return Some(neighbor);
                }
            }
            k += 1;
        }
        assert(list.take(k as int) =~= list);
        None
    }

    /// Walks through a layer towards a query: from node to node, each time to the
    /// first neighbour that is closer, up to a bound on the steps.
    pub fn greedy_search_layer_unfiltered<F: Fn(&[Score], &[Score]) -> Score>(
        &self,
        score: &F,
        query: &[Score],
        entry: usize,
        level: usize,
    ) -> (r: usize)
        requires
            self.wf(),
            arith::is_measure(*score),
        ensures
            r == greedy(self.space(), *score, self.links(), level as int, query@, entry as int),
            entry < self.nodes() ==> r < self.nodes(),
    {
        if level >= self.layers.len() || entry >= self.vectors.len() {
            return entry;
        }
        let ghost layer = self.links()[level as int];
        let ghost goal = walked(self.space(), *score, layer, query@, entry as int, MAX_STEPS as nat);
        let mut current: usize = entry;
        let mut steps: usize = 0;
        let mut changed: bool = true;
        while changed && steps < MAX_STEPS
            invariant
                steps <= MAX_STEPS,
                self.wf(),
                arith::is_measure(*score),
                level < self.layers@.len(),
                current < self.nodes(),
                layer == self.links()[level as int],
                changed ==> walked(
                    self.space(),
                    *score,
                    layer,
                    query@,
                    current as int,
                    (MAX_STEPS - steps) as nat,
                ) == goal,
                !changed ==> current == goal,
            decreases MAX_STEPS - steps,
        {
            steps += 1;
            match self.step(score, query, current, level) {
                Some(next) => {
                    current = next;
                },
                None => {
                    changed = false;
                },
            }
        }
        current
    }

    /// Walks through the layers from `top` down to the one above `level`.
    pub fn descend<F: Fn(&[Score], &[Score]) -> Score>(
        &self,
        score: &F,
        query: &[Score],
        entry: usize,
        top: usize,
        level: usize,
    ) -> (r: usize)
        requires
            self.wf(),
            arith::is_measure(*score),
        ensures
            r == descended(
                self.space(),
                *score,
                self.links(),
                query@,
                entry as int,
                top as int,
                level as int,
            ),
            entry < self.nodes() ==> r < self.nodes(),
    {
        let ghost goal = descended(
            self.space(),
            *score,
            self.links(),
            query@,
            entry as int,
            top as int,
            level as int,
        );
        let mut current: usize = entry;
        let mut l: usize = top;
        while l > level
            invariant
                self.wf(),
                arith::is_measure(*score),
                entry < self.nodes() ==> current < self.nodes(),
                goal == descended(
                    self.space(),
                    *score,
                    self.links(),
                    query@,
                    current as int,
                    l as int,
                    level as int,
                ),
            decreases l,
        {
            current = self.greedy_search_layer_unfiltered(score, query, current, l);
            l -= 1;
        }
        current
    }
}

/// Whether `f` decides on any point, and decides the same way each time.
pub open spec fn is_filter<P: Fn(PointId) -> Result<bool, E>, E>(f: P) -> bool {
    &&& forall|id: PointId| #[trigger] f.requires((id,))
    &&& forall|id: PointId, r: Result<bool, E>, s: Result<bool, E>|
        #[trigger] f.ensures((id,), r) && #[trigger] f.ensures((id,), s) ==> r == s
}

/// What a filter decides on a point.
pub open spec fn verdict<P: Fn(PointId) -> Result<bool, E>, E>(f: P, id: PointId) -> Result<bool, E> {
    choose|r: Result<bool, E>| f.ensures((id,), r)
}

/// How far a pass through a list of neighbours has come.
pub struct Pass<E> {
    pub current: int,
    /// Whether it has moved to another node.
    pub moved: bool,
    /// Whether it looks at no more neighbours.
    pub stopped: bool,
    /// The error of the filter that ended it.
    pub failed: Option<E>,
}

/// A pass through the neighbours of a node: it moves to each that is not deleted,
/// passes the filter, and is closer to the query than where the pass then is.
pub open spec fn pass<F: Fn(&[Score], &[Score]) -> Score, P: Fn(PointId) -> Result<bool, E>, E>(
    space: Space,
    score: F,
    passes: P,
    ids: Seq<PointId>,
    query: Seq<Score>,
    start: int,
    list: Seq<usize>,
) -> Pass<E>
    decreases list.len(),
{
    if list.len() == 0 {
        Pass { current: start, moved: false, stopped: false, failed: None }
    } else {
        let before = pass(space, score, passes, ids, query, start, list.drop_last());
        let next = list.last() as int;
        if before.stopped || before.failed is Some || space.deleted[next] {
            before
        } else {
            match verdict(passes, ids[next]) {
                Err(e) => Pass { failed: Some(e), ..before },
                Ok(false) => before,
                Ok(true) => if !space.live(before.current) {
                    Pass { stopped: true, ..before }
                } else if score::less(
                    query_key(space, score, query, next),
                    query_key(space, score, query, before.current),
                ) {
                    Pass { current: next, moved: true, ..before }
                } else {
                    before
                },
            }
        }
    }
}

/// Where passes through a layer end after at most `steps` of them, or the error
/// that ended them.
pub open spec fn passed<F: Fn(&[Score], &[Score]) -> Score, P: Fn(PointId) -> Result<bool, E>, E>(
    space: Space,
    score: F,
    passes: P,
    ids: Seq<PointId>,
    layers: Seq<Seq<Seq<usize>>>,
    level: int,
    query: Seq<Score>,
    current: int,
    steps: nat,
) -> Result<int, E>
    decreases steps,
{
    if steps == 0 || level >= layers.len() || current >= space.vectors.len() {
        Ok(current)
    } else {
        let end = pass(space, score, passes, ids, query, current, layers[level][current]);
        match end.failed {
            Some(e) => Err(e),
            None => if end.moved {
                passed(space, score, passes, ids, layers, level, query, end.current, (steps - 1) as nat)
            } else {
                Ok(end.current)
            },
        }
    }
}

proof fn lemma_pass_stays<F: Fn(&[Score], &[Score]) -> Score, P: Fn(PointId) -> Result<bool, E>, E>(
    space: Space,
    score: F,
    passes: P,
    ids: Seq<PointId>,
    query: Seq<Score>,
    start: int,
    list: Seq<usize>,
    k: int,
)
    requires
        0 <= k <= list.len(),
        ({
            let at = pass(space, score, passes, ids, query, start, list.take(k));
            at.stopped || at.failed is Some
        }),
    ensures
        pass(space, score, passes, ids, query, start, list) == pass(
            space,
            score,
            passes,
            ids,
            query,
            start,
            list.take(k),
        ),
    decreases list.len() - k,
{
    if k < list.len() {
        assert(list.take(k + 1).drop_last() =~= list.take(k));
        lemma_pass_stays(space, score, passes, ids, query, start, list, k + 1);
    } else {
        assert(list.take(k) =~= list);
    }
}

impl HNSWIndex {
    /// One pass through the neighbours of a node.
    fn pass_through<F: Fn(&[Score], &[Score]) -> Score, P: Fn(PointId) -> Result<bool, E>, E>(
        &self,
        score: &F,
        passes: &P,
        query: &[Score],
        start: usize,
        level: usize,
    ) -> (r: Result<(usize, bool), E>)
        requires
            self.wf(),
            arith::is_measure(*score),
            is_filter(*passes),
            level < self.layers@.len(),
            start < self.nodes(),
        ensures
            ({
                let end = pass(
                    self.space(),
                    *score,
                    *passes,
                    self.ids@,
                    query@,
                    start as int,
                    self.links()[level as int][start as int],
                );
                match r {
                    Ok((current, moved)) => end.failed is None && current == end.current && moved == end.moved
                        && current < self.nodes(),
                    Err(e) => end.failed == Some(e),
                }
            }),
    {
        let ghost space = self.space();
        let ghost list = self.links()[level as int][start as int];
        assert(self.layers@[level as int]@.len() == self.nodes());
        let neighbors: &Vec<usize> = &self.layers[level][start];
        assert(neighbors@ == list);
        let mut current: usize = start;
        let mut moved: bool = false;
        let mut k: usize = 0;
        while k < neighbors.len()
            invariant
                k <= neighbors@.len(),
                neighbors@ == list,
                space == self.space(),
                list == self.links()[level as int][start as int],
                self.wf(),
                arith::is_measure(*score),
                is_filter(*passes),
                level < self.layers@.len(),
                self.layers@[level as int]@.len() == self.nodes(),
                start < self.nodes(),
                current < self.nodes(),
                pass(space, *score, *passes, self.ids@, query@, start as int, list.take(k as int)) == (Pass::<E> {
                    current: current as int,
                    moved,
                    stopped: false,
                    failed: None,
                }),
            decreases neighbors@.len() - k,
        {
            let neighbor: usize = neighbors[k];
            assert(self.links()[level as int][start as int][k as int] < self.nodes());
            assert(list.take(k + 1).drop_last() =~= list.take(k as int));
            assert(list.take(k + 1).last() == neighbor);
            if !self.deleted[neighbor] {
                let decided: Result<bool, E> = passes(self.ids[neighbor]);
                assert(decided == verdict(*passes, self.ids@[neighbor as int]));
                match decided {
                    Err(e) => {
                        proof {
                            lemma_pass_stays(
                                space,
                                *score,
                                *passes,
                                self.ids@,
                                query@,
                                start as int,
                                list,
                                k + 1,
                            );
                        }
                        return Err(e);
                    },
                    Ok(allowed) => {
                        if allowed {
                            if self.deleted[current] {
                                proof {
                                    lemma_pass_stays(
                                        space,
                                        *score,
                                        *passes,
                                        self.ids@,
                                        query@,
                                        start as int,
                                        list,
                                        k + 1,
                                    );
                                }
                                return Ok((current, moved));
                            }
                            let here: Score = self.query_score(score, query, current);
                            let there: Score = self.query_score(score, query, neighbor);
                            if score::is_less(there, here) {
                                current = neighbor;
                                moved = true;
                            }
                        }
                    },
                }
            }
            k += 1;
        }
        assert(list.take(k as int) =~= list);
        Ok((current, moved))
    }

    /// Walks through a layer towards a query over the points that pass a filter,
    /// pass by pass, up to a bound on the passes.
    pub fn greedy_search_layer_with_filter<
        F: Fn(&[Score], &[Score]) -> Score,
        P: Fn(PointId) -> Result<bool, E>,
        E,
    >(&self, score: &F, passes: &P, query: &[Score], entry: usize, level: usize) -> (r: Result<usize, E>)
        requires
            self.wf(),
            arith::is_measure(*score),
            is_filter(*passes),
        ensures
            match passed(
                self.space(),
                *score,
                *passes,
                self.ids@,
                self.links(),
                level as int,
                query@,
                entry as int,
                MAX_STEPS as nat,
            ) {
                Ok(end) => r is Ok && r->Ok_0 == end,
                Err(e) => r == Err::<usize, E>(e),
            },
    {
        if level >= self.layers.len() || entry >= self.vectors.len() {
            return Ok(entry);
        }
        let ghost goal = passed(
            self.space(),
            *score,
            *passes,
            self.ids@,
            self.links(),
            level as int,
            query@,
            entry as int,
            MAX_STEPS as nat,
        );
        let mut current: usize = entry;
        let mut steps: usize = 0;
        let mut changed: bool = true;
        while changed && steps < MAX_STEPS
            invariant
                steps <= MAX_STEPS,
                self.wf(),
                arith::is_measure(*score),
                is_filter(*passes),
                level < self.layers@.len(),
                current < self.nodes(),
                goal == passed(
                    self.space(),
                    *score,
                    *passes,
                    self.ids@,
                    self.links(),
                    level as int,
                    query@,
                    entry as int,
                    MAX_STEPS as nat,
                ),
                changed ==> passed(
                    self.space(),
                    *score,
                    *passes,
                    self.ids@,
                    self.links(),
                    level as int,
                    query@,
                    current as int,
                    (MAX_STEPS - steps) as nat,
                ) == goal,
                !changed ==> goal == Ok::<int, E>(current as int),
            decreases MAX_STEPS - steps,
        {
            steps += 1;
            match self.pass_through(score, passes, query, current, level) {
                Err(e) => {
                    return Err(e);
                },
                Ok((next, moved)) => {
                    current = next;
                    changed = moved;
                },
            }
        }
        Ok(current)
    }
}

/// What the first `k` nodes of a list decide, the whole list decides.
proof fn lemma_first_found<F: Fn(&[Score], &[Score]) -> Score>(
    space: Space,
    score: F,
    query: Seq<Score>,
    current: int,
    list: Seq<usize>,
    k: int,
)
    requires
        0 <= k <= list.len(),
        first_better(space, score, query, current, list.take(k)) is Some,
    ensures
        first_better(space, score, query, current, list) == first_better(
            space,
            score,
            query,
            current,
            list.take(k),
        ),
    decreases list.len() - k,
{
    if k < list.len() {
        assert(list.take(k + 1).drop_last() =~= list.take(k));
        lemma_first_found(space, score, query, current, list, k + 1);
    } else {
        assert(list.take(k) =~= list);
    }
}

} // verus!
