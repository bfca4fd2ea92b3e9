//! Scores summed up by point.

use vstd::prelude::*;
use std::collections::HashMap;
use crate::arith;
use crate::order;
use crate::score::Score;

verus! {

broadcast use vstd::std_specs::hash::group_hash_axioms;

/// Where an id stands among items.
pub open spec fn position_of(items: Seq<(u64, Score)>, id: u64) -> Option<int>
    decreases items.len(),
{
    if items.len() == 0 {
        None
    } else if items.last().0 == id {
        Some(items.len() - 1)
    } else {
        position_of(items.drop_last(), id)
    }
}

/// Items with one more contribution: added to the sum of its id, which starts
/// at zero.
pub open spec fn counted<A: Fn(Score, Score) -> Score>(add: A, items: Seq<(u64, Score)>, part: (u64, Score)) -> Seq<
    (u64, Score),
> {
    match position_of(items, part.0) {
        Some(at) => items.update(at, (part.0, arith::binary(add, items[at].1, part.1))),
        None => items.push((part.0, arith::binary(add, 0, part.1))),
    }
}

/// The sums of contributions by their ids, in the order in which the ids first
/// occur.
pub open spec fn tallied<A: Fn(Score, Score) -> Score>(add: A, parts: Seq<(u64, Score)>) -> Seq<(u64, Score)>
    decreases parts.len(),
{
    if parts.len() == 0 {
        Seq::empty()
    } else {
        counted(add, tallied(add, parts.drop_last()), parts.last())
    }
}

/// The best sums of contributions: by descending sum, by ascending id among equal
/// ones.
pub open spec fn top_tallied<A: Fn(Score, Score) -> Score>(
    add: A,
    parts: Seq<(u64, Score)>,
    limit: int,
) -> Seq<(u64, Score)> {
    let all = order::ranking(tallied(add, parts));
    all.take(if limit < all.len() { limit } else { all.len() as int })
}

/// The sum of the contributions of one id.
pub open spec fn sum_for<A: Fn(Score, Score) -> Score>(add: A, parts: Seq<(u64, Score)>, id: u64) -> Score
    decreases parts.len(),
{
    if parts.len() == 0 {
        0
    } else if parts.last().0 == id {
        arith::binary(add, sum_for(add, parts.drop_last(), id), parts.last().1)
    } else {
        sum_for(add, parts.drop_last(), id)
    }
}

/// Whether no id occurs twice.
pub open spec fn unique_ids(items: Seq<(u64, Score)>) -> bool {
    forall|i: int, j: int| 0 <= i < j < items.len() ==> (#[trigger] items[i]).0 != (#[trigger] items[j]).0
}

proof fn lemma_position(items: Seq<(u64, Score)>, id: u64)
    ensures
        position_of(items, id) matches Some(at) ==> 0 <= at < items.len() && items[at].0 == id,
        position_of(items, id) is None ==> forall|i: int| 0 <= i < items.len() ==> (#[trigger] items[i]).0 != id,
    decreases items.len(),
{
    if items.len() > 0 && items.last().0 != id {
        lemma_position(items.drop_last(), id);
        let rest = items.drop_last();
        if position_of(items, id) is None {
            assert forall|i: int| 0 <= i < items.len() implies (#[trigger] items[i]).0 != id by {
                if i < rest.len() {
                    assert(rest[i].0 != id);
                }
            }
        }
    }
}

/// A tally holds each id that contributes once, with the sum of its
/// contributions in their order.
pub proof fn law_tally<A: Fn(Score, Score) -> Score>(add: A, parts: Seq<(u64, Score)>)
    ensures
        unique_ids(tallied(add, parts)),
        forall|i: int|
            0 <= i < tallied(add, parts).len() ==> (#[trigger] tallied(add, parts)[i]).1 == sum_for(
                add,
                parts,
                tallied(add, parts)[i].0,
            ),
        forall|id: u64| #[trigger] sums(tallied(add, parts), id) <==> sums(parts, id),
    decreases parts.len(),
{
    if parts.len() > 0 {
        let rest = parts.drop_last();
        law_tally(add, rest);
        let before = tallied(add, rest);
        let part = parts.last();
        let out = tallied(add, parts);
        lemma_position(before, part.0);
        lemma_no_sum(add, rest, part.0);
        assert forall|i: int| 0 <= i < out.len() implies (#[trigger] out[i]).1 == sum_for(add, parts, out[i].0) by {
            match position_of(before, part.0) {
                Some(at) => {
                    assert(before[i].1 == sum_for(add, rest, before[i].0));
                    if i != at {
                        assert(before[i].0 != before[at].0);
                    }
                },
                None => {
                    if i < before.len() {
                        assert(before[i].1 == sum_for(add, rest, before[i].0));
                        assert(before[i].0 != part.0);
                    } else {
                        assert(!sums(before, part.0)) by {
                            assert(forall|i: int| 0 <= i < before.len() ==> (#[trigger] before[i]).0 != part.0);
                        }
                    }
                },
            }
        }
        assert forall|i: int, j: int| 0 <= i < j < out.len() implies (#[trigger] out[i]).0 != (#[trigger] out[j]).0 by {
            if i < before.len() && j < before.len() {
                assert(before[i].0 != before[j].0);
            } else {
                assert(before[i].0 != part.0);
            }
        }
        assert forall|id: u64| #[trigger] sums(out, id) <==> sums(parts, id) by {
            assert(sums(before, id) <==> sums(rest, id));
            if sums(before, id) {
                let i = choose|i: int| 0 <= i < before.len() && (#[trigger] before[i]).0 == id;
                assert(out[i].0 == id);
            }
            if sums(rest, id) {
                let i = choose|i: int| 0 <= i < rest.len() && (#[trigger] rest[i]).0 == id;
                assert(parts[i].0 == id);
            }
            if id == part.0 {
                assert(parts[parts.len() - 1].0 == id);
                match position_of(before, part.0) {
                    Some(at) => {
                        assert(out[at].0 == id);
                    },
                    None => {
                        assert(out[before.len() as int].0 == id);
                    },
                }
            }
            if sums(out, id) && id != part.0 {
                let i = choose|i: int| 0 <= i < out.len() && (#[trigger] out[i]).0 == id;
                assert(before[i].0 == id);
            }
            if sums(parts, id) && id != part.0 {
                let i = choose|i: int| 0 <= i < parts.len() && (#[trigger] parts[i]).0 == id;
                assert(rest[i].0 == id);
            }
        }
    }
}

/// Whether an id occurs.
pub open spec fn sums(items: Seq<(u64, Score)>, id: u64) -> bool {
    exists|i: int| 0 <= i < items.len() && (#[trigger] items[i]).0 == id
}

proof fn lemma_no_sum<A: Fn(Score, Score) -> Score>(add: A, parts: Seq<(u64, Score)>, id: u64)
    ensures
        !sums(parts, id) ==> sum_for(add, parts, id) == 0,
    decreases parts.len(),
{
    if parts.len() > 0 && !sums(parts, id) {
        let rest = parts.drop_last();
        assert(!sums(rest, id)) by {
            if sums(rest, id) {
                let i = choose|i: int| 0 <= i < rest.len() && (#[trigger] rest[i]).0 == id;
                assert(parts[i].0 == id);
            }
        }
        lemma_no_sum(add, rest, id);
        assert(parts[parts.len() - 1].0 != id);
    }
}

/// Sums of contributions by their ids.
pub(crate) struct Tally {
    pub(crate) items: Vec<(u64, Score)>,
    pub(crate) positions: HashMap<u64, usize>,
}

impl Tally {
    /// Whether every item is found by its id.
    pub(crate) closed spec fn wf(&self) -> bool {
        &&& unique_ids(self.items@)
        &&& forall|i: int|
            0 <= i < self.items@.len() ==> self.positions@.dom().contains((#[trigger] self.items@[i]).0)
                && self.positions@[self.items@[i].0] == i
        &&& forall|id: u64| #[trigger]
            self.positions@.dom().contains(id) ==> self.positions@[id] < self.items@.len()
                && self.items@[self.positions@[id] as int].0 == id
    }

    /// A tally of nothing.
    pub(crate) fn new() -> (r: Self)
        ensures
            r.wf(),
            r.items@ == Seq::<(u64, Score)>::empty(),
    {
        Tally { items: Vec::new(), positions: HashMap::new() }
    }

    /// Adds a contribution.
    pub(crate) fn count<A: Fn(Score, Score) -> Score>(&mut self, add: &A, id: u64, part: Score)
        requires
            old(self).wf(),
            arith::is_binary(*add),
        ensures
            final(self).wf(),
            final(self).items@ == counted(*add, old(self).items@, (id, part)),
    {
        proof {
            lemma_position(self.items@, id);
        }
        match self.positions.get(&id) {
            Some(at) => {
                let at: usize = *at;
                let sum: Score = arith::apply_binary(add, self.items[at].1, part);
                self.items.set(at, (id, sum));
            },
            None => {
                let sum: Score = arith::apply_binary(add, 0, part);
                let at: usize = self.items.len();
                self.items.push((id, sum));
                self.positions.insert(id, at);
            },
        }
    }
}

} // verus!
