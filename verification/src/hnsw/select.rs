//! Which candidates become neighbours.

use vstd::prelude::*;
use crate::arith;
use crate::hnsw::graph::HNSWIndex;
use crate::hnsw::space::Space;
use crate::hnsw::types::NodeCandidate;
use crate::score;
use crate::score::Score;

verus! {

/// How neighbours are selected: `allowance` scales a candidate's key, by a factor
/// of the layer, to the key below which a chosen neighbour is too close to it; the
/// first `floor` neighbours are taken whatever they are close to.
pub struct Selection<'a, S: Fn(Score, usize) -> Score> {
    pub allowance: &'a S,
    pub floor: usize,
}

/// Whether a chosen neighbour is closer to a candidate than the candidate's key
/// allows.
pub open spec fn too_close<F: Fn(&[Score], &[Score]) -> Score, S: Fn(Score, usize) -> Score>(
    space: Space,
    score: F,
    allowance: S,
    level: usize,
    c: NodeCandidate,
    chosen: Seq<usize>,
) -> bool {
    exists|j: int|
        0 <= j < chosen.len() && space.live(#[trigger] chosen[j] as int) && score::less(
            space.key(score, c.idx as int, chosen[j] as int),
            arith::scaled(allowance, c.sort_key, level),
        )
}

/// The neighbours chosen after one more candidate was looked at.
pub open spec fn chosen_with<F: Fn(&[Score], &[Score]) -> Score, S: Fn(Score, usize) -> Score>(
    space: Space,
    score: F,
    allowance: S,
    level: usize,
    floor: int,
    m: int,
    chosen: Seq<usize>,
    c: NodeCandidate,
) -> Seq<usize> {
    if chosen.len() >= m || chosen.contains(c.idx) || !space.live(c.idx as int) {
        chosen
    } else if chosen.len() < floor || !too_close(space, score, allowance, level, c, chosen) {
        chosen.push(c.idx)
    } else {
        chosen
    }
}

/// The diverse ones of the candidates, in their order: up to `m` live nodes, none
/// too close to one before it.
pub open spec fn diverse<F: Fn(&[Score], &[Score]) -> Score, S: Fn(Score, usize) -> Score>(
    space: Space,
    score: F,
    allowance: S,
    level: usize,
    floor: int,
    m: int,
    candidates: Seq<NodeCandidate>,
) -> Seq<usize>
    decreases candidates.len(),
{
    if candidates.len() == 0 {
        Seq::empty()
    } else {
        chosen_with(
            space,
            score,
            allowance,
            level,
            floor,
            m,
            diverse(space, score, allowance, level, floor, m, candidates.drop_last()),
            candidates.last(),
        )
    }
}

/// The chosen nodes, with candidates in their order appended until there are `m`.
pub open spec fn filled(chosen: Seq<usize>, m: int, candidates: Seq<NodeCandidate>) -> Seq<usize>
    decreases candidates.len(),
{
    if candidates.len() == 0 {
        chosen
    } else {
        let before = filled(chosen, m, candidates.drop_last());
        if before.len() >= m || before.contains(candidates.last().idx) {
            before
        } else {
            before.push(candidates.last().idx)
        }
    }
}

/// The neighbours that candidates give: the diverse ones first, then the others
/// in their order, up to `m` in all.
pub open spec fn selected<F: Fn(&[Score], &[Score]) -> Score, S: Fn(Score, usize) -> Score>(
    space: Space,
    score: F,
    allowance: S,
    level: usize,
    floor: int,
    m: int,
    candidates: Seq<NodeCandidate>,
) -> Seq<usize> {
    filled(diverse(space, score, allowance, level, floor, m, candidates), m, candidates)
}

proof fn lemma_diverse<F: Fn(&[Score], &[Score]) -> Score, S: Fn(Score, usize) -> Score>(
    space: Space,
    score: F,
    allowance: S,
    level: usize,
    floor: int,
    m: int,
    candidates: Seq<NodeCandidate>,
)
    requires
        m >= 0,
    ensures
        ({
            let out = diverse(space, score, allowance, level, floor, m, candidates);
            &&& out.len() <= m
            &&& out.len() <= candidates.len()
            &&& out.no_duplicates()
            &&& forall|k: int|
                0 <= k < out.len() ==> #[trigger] space.live(out[k] as int) && exists|i: int|
                    0 <= i < candidates.len() && (#[trigger] candidates[i]).idx == out[k]
        }),
    decreases candidates.len(),
{
    if candidates.len() > 0 {
        let rest = candidates.drop_last();
        lemma_diverse(space, score, allowance, level, floor, m, rest);
        let before = diverse(space, score, allowance, level, floor, m, rest);
        let out = diverse(space, score, allowance, level, floor, m, candidates);
        assert forall|k: int| 0 <= k < out.len() implies #[trigger] space.live(out[k] as int) && exists|i: int|
            0 <= i < candidates.len() && (#[trigger] candidates[i]).idx == out[k] by {
            if k < before.len() {
                assert(space.live(before[k] as int));
                let i = choose|i: int| 0 <= i < rest.len() && (#[trigger] rest[i]).idx == before[k];
                assert(candidates[i].idx == out[k]);
            } else {
                assert(candidates[candidates.len() - 1].idx == out[k]);
            }
        }
    }
}

proof fn lemma_filled(chosen: Seq<usize>, m: int, candidates: Seq<NodeCandidate>)
    requires
        chosen.len() <= m,
        chosen.no_duplicates(),
    ensures
        ({
            let out = filled(chosen, m, candidates);
            &&& chosen.len() <= out.len() <= m
            &&& out.no_duplicates()
            &&& out.take(chosen.len() as int) == chosen
            &&& out.len() < m ==> forall|i: int|
                0 <= i < candidates.len() ==> #[trigger] out.contains(candidates[i].idx)
            &&& forall|k: int|
                chosen.len() <= k < out.len() ==> exists|i: int|
                    0 <= i < candidates.len() && (#[trigger] candidates[i]).idx == #[trigger] out[k]
        }),
    decreases candidates.len(),
{
    if candidates.len() > 0 {
        let rest = candidates.drop_last();
        lemma_filled(chosen, m, rest);
        let before = filled(chosen, m, rest);
        let out = filled(chosen, m, candidates);
        assert(out.take(chosen.len() as int) =~= before.take(chosen.len() as int));
        assert forall|k: int| chosen.len() <= k < out.len() implies exists|i: int|
            0 <= i < candidates.len() && (#[trigger] candidates[i]).idx == #[trigger] out[k] by {
            if k < before.len() {
                assert(out[k] == before[k]);
                let i = choose|i: int| 0 <= i < rest.len() && (#[trigger] rest[i]).idx == before[k];
                assert(candidates[i].idx == out[k]);
            } else {
                assert(candidates[candidates.len() - 1].idx == out[k]);
            }
        }
        if out.len() < m {
            assert forall|i: int| 0 <= i < candidates.len() implies #[trigger] out.contains(candidates[i].idx) by {
                if i < rest.len() {
                    assert(before.contains(rest[i].idx));
                    let k = choose|k: int| 0 <= k < before.len() && before[k] == rest[i].idx;
                    assert(out[k] == candidates[i].idx);
                } else {
                    if !before.contains(candidates[i].idx) {
                        assert(out[before.len() as int] == candidates[i].idx);
                    }
                }
            }
        }
    } else {
        assert(chosen.take(chosen.len() as int) =~= chosen);
    }
}

/// A selection holds each node once and at most `m` of them, all of them
/// candidates; where it holds fewer, it holds every candidate.
pub proof fn law_selection<F: Fn(&[Score], &[Score]) -> Score, S: Fn(Score, usize) -> Score>(
    space: Space,
    score: F,
    allowance: S,
    level: usize,
    floor: int,
    m: int,
    candidates: Seq<NodeCandidate>,
)
    requires
        m >= 0,
    ensures
        ({
            let out = selected(space, score, allowance, level, floor, m, candidates);
            &&& out.len() <= m
            &&& out.no_duplicates()
            &&& out.len() < m ==> forall|i: int|
                0 <= i < candidates.len() ==> #[trigger] out.contains(candidates[i].idx)
            &&& forall|k: int|
                0 <= k < out.len() ==> exists|i: int|
                    0 <= i < candidates.len() && (#[trigger] candidates[i]).idx == #[trigger] out[k]
        }),
{
    let chosen = diverse(space, score, allowance, level, floor, m, candidates);
    lemma_diverse(space, score, allowance, level, floor, m, candidates);
    lemma_filled(chosen, m, candidates);
    let out = selected(space, score, allowance, level, floor, m, candidates);
    assert forall|k: int| 0 <= k < out.len() implies exists|i: int|
        0 <= i < candidates.len() && (#[trigger] candidates[i]).idx == #[trigger] out[k] by {
        if k < chosen.len() {
            assert(out.take(chosen.len() as int)[k] == out[k]);
            assert(space.live(chosen[k] as int));
        }
    }
}

/// Whether a list holds a node.
pub(crate) fn holds(list: &[usize], node: usize) -> (r: bool)
    ensures
        r == list@.contains(node),
{
    let mut i: usize = 0;
    while i < list.len()
        invariant
            i <= list@.len(),
            forall|k: int| 0 <= k < i ==> list@[k] != node,
        decreases list@.len() - i,
    {
        if list[i] == node {
            return true;
        }
        i += 1;
    }
    false
}

impl HNSWIndex {
    /// Whether a chosen neighbour is closer to a candidate than the candidate's
    /// key allows.
    fn is_too_close<F: Fn(&[Score], &[Score]) -> Score, S: Fn(Score, usize) -> Score>(
        &self,
        score: &F,
        allowance: &S,
        level: usize,
        c: NodeCandidate,
        chosen: &[usize],
    ) -> (r: bool)
        requires
            self.wf(),
            arith::is_measure(*score),
            arith::is_scaling(*allowance),
            c.idx < self.nodes(),
        ensures
            r == too_close(self.space(), *score, *allowance, level, c, chosen@),
    {
        let limit: Score = arith::apply_scaling(allowance, c.sort_key, level);
        let mut j: usize = 0;
        while j < chosen.len()
            invariant
                j <= chosen@.len(),
                self.wf(),
                arith::is_measure(*score),
                c.idx < self.nodes(),
                limit == arith::scaled(*allowance, c.sort_key, level),
                forall|i: int|
                    0 <= i < j ==> !(self.space().live(#[trigger] chosen@[i] as int) && score::less(
                        self.space().key(*score, c.idx as int, chosen@[i] as int),
                        limit,
                    )),
            decreases chosen@.len() - j,
        {
            let other: usize = chosen[j];
            if other < self.vectors.len() && !self.deleted[other] {
                let key: Score = self.normalize_score(self.raw_score(score, c.idx, other));
                if score::is_less(key, limit) {
                    assert(self.space().live(chosen@[j as int] as int));
                    return true;
                }
            }
            j += 1;
        }
        false
    }

    /// The neighbours that candidates give: the diverse ones first, then the
    /// others in their order, up to `m` in all.
    pub fn select_diverse_neighbors<F: Fn(&[Score], &[Score]) -> Score, S: Fn(Score, usize) -> Score>(
        &self,
        score: &F,
        selection: &Selection<'_, S>,
        candidates: &[NodeCandidate],
        m: usize,
        level: usize,
    ) -> (r: Vec<usize>)
        requires
            self.wf(),
            arith::is_measure(*score),
            arith::is_scaling(*selection.allowance),
        ensures
            r@ == selected(
                self.space(),
                *score,
                *selection.allowance,
                level,
                selection.floor as int,
                m as int,
                candidates@,
            ),
            r@.len() <= m,
    {
        let ghost space = self.space();
        let ghost floor = selection.floor as int;
        let mut result: Vec<usize> = Vec::new();
        let mut i: usize = 0;
        while i < candidates.len()
            invariant
                i <= candidates@.len(),
                self.wf(),
                arith::is_measure(*score),
                arith::is_scaling(*selection.allowance),
                space == self.space(),
                floor == selection.floor,
                result@ == diverse(
                    space,
                    *score,
                    *selection.allowance,
                    level,
                    floor,
                    m as int,
                    candidates@.take(i as int),
                ),
            decreases candidates@.len() - i,
        {
            let c: NodeCandidate = candidates[i];
            assert(candidates@.take(i + 1).drop_last() =~= candidates@.take(i as int));
            assert(candidates@.take(i + 1).last() == c);
            if result.len() < m && !holds(result.as_slice(), c.idx) && c.idx < self.vectors.len()
                && !self.deleted[c.idx] {
                if result.len() < selection.floor || !self.is_too_close(
                    score,
                    selection.allowance,
                    level,
                    c,
                    result.as_slice(),
                ) {
                    result.push(c.idx);
                }
            }
            i += 1;
        }
        assert(candidates@.take(i as int) =~= candidates@);
        let ghost chosen = result@;
        let mut i: usize = 0;
        while i < candidates.len()
            invariant
                i <= candidates@.len(),
                result@ == filled(chosen, m as int, candidates@.take(i as int)),
            decreases candidates@.len() - i,
        {
            let c: NodeCandidate = candidates[i];
            assert(candidates@.take(i + 1).drop_last() =~= candidates@.take(i as int));
            assert(candidates@.take(i + 1).last() == c);
            if result.len() < m && !holds(result.as_slice(), c.idx) {
                result.push(c.idx);
            }
            i += 1;
        }
        assert(candidates@.take(i as int) =~= candidates@);
        proof {
            law_selection(space, *score, *selection.allowance, level, floor, m as int, candidates@);
        }
        result
    }
}

} // verus!
