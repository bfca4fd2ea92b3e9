//! How many points enter the graph at once.

use vstd::prelude::*;
use crate::arith;
use crate::hnsw::descend;
use crate::hnsw::graph;
use crate::hnsw::graph::{HNSWIndex, MAX_STORED_LEVEL, NODE_LIVE, NO_EP};
use crate::hnsw::insert;
use crate::hnsw::insert::Progress;
use crate::hnsw::lid;
use crate::hnsw::select::Selection;
use crate::hnsw::space;
use crate::hnsw::space::{Links, Space};
use crate::hnsw::types::{DBError, PointId};
use crate::order;
use crate::score;
use crate::score::Score;

verus! {

/// A point of a batch, with its vector and the level drawn for it.
pub struct BatchEntry {
    pub id: PointId,
    pub vector: Vec<Score>,
    pub level: usize,
}

/// Whether `after` is `before` with a node for a point of the batch; unchanged
/// where the point had one.
pub open spec fn took(before: HNSWIndex, after: HNSWIndex, entry: BatchEntry) -> bool {
    if before.ids@.contains(entry.id) {
        after == before
    } else {
        &&& entry.vector@.len() == before.dim
        &&& insert::added(before, after, entry.id, entry.vector@, entry.level as int, NODE_LIVE, true)
    }
}

/// Whether `after` is `before` with a node for each point of the batch that had
/// none, in their order.
pub open spec fn allocated(before: HNSWIndex, after: HNSWIndex, batch: Seq<BatchEntry>) -> bool
    decreases batch.len(),
{
    if batch.len() == 0 {
        after == before
    } else {
        exists|mid: HNSWIndex| allocated(before, mid, batch.drop_last()) && #[trigger] took(mid, after, batch.last())
    }
}

/// Whether a node may have been linked so from an entry node; the links stay as
/// they are where that is deleted.
pub open spec fn may_link_from<
    F: Fn(&[Score], &[Score]) -> Score,
    S: Fn(Score, usize) -> Score,
>(
    space: Space,
    score: F,
    allowance: S,
    floor: int,
    capping: bool,
    entry: int,
    top: int,
    node: usize,
    level: int,
    ef: usize,
    before: Links,
    after: Links,
) -> bool {
    if space.deleted[entry] {
        after == before
    } else {
        insert::may_link(
            space,
            score,
            allowance,
            floor,
            false,
            capping,
            (Progress {
                links: before,
                entry: descend::descended(
                    space,
                    score,
                    before.layers,
                    space.vectors[node as int],
                    entry,
                    top,
                    level,
                ),
            }),
            node,
            level,
            ef,
            after,
        )
    }
}

/// Whether the nodes from `lo` to `hi` may have been linked so, one after the
/// other.
pub open spec fn may_link_all<
    F: Fn(&[Score], &[Score]) -> Score,
    S: Fn(Score, usize) -> Score,
>(
    space: Space,
    score: F,
    allowance: S,
    floor: int,
    capping: bool,
    entry: int,
    top: int,
    levels: Seq<u8>,
    ef: usize,
    before: Links,
    after: Links,
    lo: int,
    hi: int,
) -> bool
    decreases hi - lo,
{
    if hi <= lo {
        after == before
    } else {
        exists|mid: Links|
            may_link_all(space, score, allowance, floor, capping, entry, top, levels, ef, before, mid, lo, hi - 1)
                && #[trigger] may_link_from(
                space,
                score,
                allowance,
                floor,
                capping,
                entry,
                top,
                (hi - 1) as usize,
                levels[hi - 1] as int,
                ef,
                mid,
                after,
            )
    }
}

/// The entry point and the highest level after each of the nodes from `lo` to
/// `hi` took them over where its level is higher.
pub open spec fn promoted(entry_level_ep: u64, levels: Seq<u8>, lo: int, hi: int) -> u64
    decreases hi - lo,
{
    if hi <= lo {
        entry_level_ep
    } else {
        let before = promoted(entry_level_ep, levels, lo, hi - 1);
        if levels[hi - 1] > graph::unpacked_ep(before).1 {
            graph::packed_ep(hi - 1, levels[hi - 1] as int) as u64
        } else {
            before
        }
    }
}

/// Whether `after` may be the graph `before` after a batch, whose new nodes are
/// those of `all`.
pub open spec fn batch_inserted<
    F: Fn(&[Score], &[Score]) -> Score,
    S: Fn(Score, usize) -> Score,
>(
    before: HNSWIndex,
    all: HNSWIndex,
    after: HNSWIndex,
    score: F,
    allowance: S,
    floor: int,
    capping: bool,
) -> bool {
    let lo = before.nodes() as int;
    let hi = all.nodes() as int;
    if hi == lo {
        after == all
    } else {
        let first = before.entry() is None;
        let opened = if first {
            graph::packed_ep(lo, all.levels@[lo] as int) as u64
        } else {
            before.entry_level_ep
        };
        &&& space::same_nodes(all, HNSWIndex { entry_level_ep: all.entry_level_ep, ..after })
        &&& may_link_all(
            all.space(),
            score,
            allowance,
            floor,
            capping,
            if first {
                lo
            } else {
                before.entry()->0
            },
            graph::unpacked_ep(opened).1,
            all.levels@,
            all.ef_construct,
            all.graph(),
            after.graph(),
            if first {
                lo + 1
            } else {
                lo
            },
            hi,
        )
        &&& after.entry_level_ep == promoted(opened, all.levels@, lo, hi)
    }
}

/// Adding nodes one by one keeps the settings and the entry point.
proof fn lemma_allocated(before: HNSWIndex, after: HNSWIndex, batch: Seq<BatchEntry>)
    requires
        allocated(before, after, batch),
    ensures
        after.nodes() >= before.nodes(),
        after.nodes() <= before.nodes() + batch.len(),
        after.max_level_cap == before.max_level_cap,
        after.entry_level_ep == before.entry_level_ep,
        after.dim == before.dim,
        after.m == before.m,
        after.stored_cap_l0 == before.stored_cap_l0,
    decreases batch.len(),
{
    if batch.len() > 0 {
        let last = batch.last();
        let mid = choose|mid: HNSWIndex|
            allocated(before, mid, batch.drop_last()) && #[trigger] took(mid, after, last);
        lemma_allocated(before, mid, batch.drop_last());
    }
}

impl HNSWIndex {
    /// Links a node into its layers, from an entry node; does nothing where that is
    /// deleted.
    pub fn search_and_link<
        F: Fn(&[Score], &[Score]) -> Score,
        S: Fn(Score, usize) -> Score,
        >(
        &mut self,
        score: &F,
        selection: &Selection<'_, S>,
        capping: bool,
        node: usize,
        level: usize,
        initial_entry: usize,
    )
        requires
            old(self).wf(),
            arith::is_measure(*score),
            arith::is_scaling(*selection.allowance),
            level < old(self).layers@.len(),
            level <= MAX_STORED_LEVEL,
            node < old(self).nodes(),
            initial_entry < old(self).nodes(),
            capping ==> old(self).stored_cap_l0 < usize::MAX && old(self).m < usize::MAX,
        ensures
            final(self).wf(),
            space::same_nodes(*old(self), *final(self)),
            may_link_from(
                old(self).space(),
                *score,
                *selection.allowance,
                selection.floor as int,
                capping,
                initial_entry as int,
                old(self).top_level(),
                node,
                level as int,
                old(self).ef_construct,
                old(self).graph(),
                final(self).graph(),
            ),
    {
        if self.deleted[initial_entry] {
            return ;
        }
        let top: usize = self.current_max_level();
        let current: usize = self.descend(score, self.vector_slice(node), initial_entry, top, level);
        self.link_down(score, selection, false, capping, node, level, current);
    }

    /// Adds a node for each point of a batch that has none; stops at the first new
    /// point whose vector has another dimension.
    fn allocate_batch(&mut self, batch: &[BatchEntry]) -> (r: Result<(), DBError>)
        requires
            old(self).wf(),
            old(self).nodes() + batch@.len() <= NO_EP,
            forall|i: int| 0 <= i < batch@.len() ==> (#[trigger] batch@[i]).level <= old(self).max_level_cap,
        ensures
            final(self).wf(),
            r is Ok ==> allocated(*old(self), *final(self), batch@),
            r is Err ==> refused(*old(self), *final(self), batch@, r->Err_0),
    {
        let mut i: usize = 0;
        while i < batch.len()
            invariant
                i <= batch@.len(),
                self.wf(),
                old(self).nodes() + batch@.len() <= NO_EP,
                forall|i: int| 0 <= i < batch@.len() ==> (#[trigger] batch@[i]).level <= old(self).max_level_cap,
                allocated(*old(self), *self, batch@.take(i as int)),
            decreases batch@.len() - i,
        {
            let ghost mid = *self;
            proof {
                lemma_allocated(*old(self), mid, batch@.take(i as int));
                assert(batch@.take(i + 1).drop_last() =~= batch@.take(i as int));
                assert(batch@.take(i + 1).last() == batch@[i as int]);
            }
            if !self.contains(&batch[i].id) {
                match self.validate_dim(batch[i].vector.as_slice()) {
                    Ok(_) => {},
                    Err(e) => {
                        assert(refused(*old(self), *self, batch@, e));
                        return Err(e);
                    },
                }
                self.enter_node(batch[i].id, batch[i].vector.as_slice(), batch[i].level);
            }
            assert(took(mid, *self, batch@[i as int]));
            assert(allocated(*old(self), *self, batch@.take(i + 1)));
            i += 1;
        }
        assert(batch@.take(i as int) =~= batch@);
        Ok(())
    }

    /// Inserts the points of a batch that are not there yet, in this order, and
    /// returns how many they are.
    fn insert_in_turn<F: Fn(&[Score], &[Score]) -> Score, S: Fn(Score, usize) -> Score>(
        &mut self,
        score: &F,
        selection: &Selection<'_, S>,
        capping: bool,
        batch: &[BatchEntry],
    ) -> (r: Result<usize, DBError>)
        requires
            old(self).wf(),
            arith::is_measure(*score),
            arith::is_scaling(*selection.allowance),
            old(self).nodes() + batch@.len() <= NO_EP,
            forall|i: int| 0 <= i < batch@.len() ==> (#[trigger] batch@[i]).level <= old(self).max_level_cap,
            capping ==> old(self).stored_cap_l0 < usize::MAX && old(self).m < usize::MAX,
        ensures
            final(self).wf(),
            match r {
                Ok(count) => taken(
                    *old(self),
                    *final(self),
                    batch@,
                    *score,
                    *selection.allowance,
                    selection.floor as int,
                    capping,
                    count as int,
                ),
                Err(e) => refused(*old(self), *final(self), batch@, e),
            },
    {
        let ghost before = *self;
        let lo: usize = self.len();
        match self.allocate_batch(batch) {
            Ok(_) => {},
            Err(e) => {
                return Err(e);
            },
        }
        let ghost all = *self;
        proof {
            lemma_allocated(before, all, batch@);
        }
        let hi: usize = self.len();
        if hi == lo {
            return Ok(0);
        }
        let first: bool = self.entry_point().is_none();
        let entry: usize = match self.entry_point() {
            Some(ep) => ep,
            None => {
                proof {
                    lemma_allocated_levels(before, all, batch@, lo as int);
                }
                let level: usize = self.levels[lo] as usize;
                self.store_entry_level(lo, level);
                lo
            },
        };
        let ghost opened = self.entry_level_ep;
        let ghost top = self.top_level();
        let ghost floor = selection.floor as int;
        let from: usize = if first {
            lo + 1
        } else {
            lo
        };
        let ghost start = self.graph();
        assert(start == all.graph());
        let mut node: usize = from;
        while node < hi
            invariant
                from <= node <= hi,
                lo <= from,
                lo == before.nodes(),
                all.wf(),
                before.wf(),
                allocated(before, all, batch@),
                forall|i: int| 0 <= i < batch@.len() ==> (#[trigger] batch@[i]).level <= before.max_level_cap,
                self.wf(),
                hi == self.nodes(),
                hi == all.nodes(),
                entry < hi,
                space::same_nodes(all, HNSWIndex { entry_level_ep: all.entry_level_ep, ..*self }),
                self.entry_level_ep == opened,
                top == self.top_level(),
                arith::is_measure(*score),
                arith::is_scaling(*selection.allowance),
                floor == selection.floor,
                capping ==> self.stored_cap_l0 < usize::MAX && self.m < usize::MAX,
                may_link_all(
                    all.space(),
                    *score,
                    *selection.allowance,
                    floor,
                    capping,
                    entry as int,
                    top,
                    all.levels@,
                    all.ef_construct,
                    start,
                    self.graph(),
                    from as int,
                    node as int,
                ),
            decreases hi - node,
        {
            let ghost mid = self.graph();
            proof {
                lemma_allocated(before, all, batch@);
                lemma_allocated_levels(before, all, batch@, node as int);
            }
            let level: usize = self.levels[node] as usize;
            self.search_and_link(score, selection, capping, node, level, entry);
            assert((node + 1 - 1) as usize == node);
            assert(may_link_from(
                all.space(),
                *score,
                *selection.allowance,
                floor,
                capping,
                entry as int,
                top,
                (node + 1 - 1) as usize,
                all.levels@[node + 1 - 1] as int,
                all.ef_construct,
                mid,
                self.graph(),
            ));
            node += 1;
        }
        let ghost linked = *self;
        let mut node: usize = lo;
        while node < hi
            invariant
                lo <= node <= hi,
                lo == before.nodes(),
                self.wf(),
                linked.wf(),
                hi == self.nodes(),
                *self == (HNSWIndex { entry_level_ep: self.entry_level_ep, ..linked }),
                linked.levels@ == all.levels@,
                self.entry_level_ep == promoted(opened, all.levels@, lo as int, node as int),
            decreases hi - node,
        {
            let level: usize = self.levels[node] as usize;
            self.promote_entry_if_higher(node, level);
            node += 1;
        }
        assert(self.graph() == linked.graph());
        assert(batch_inserted(
            before,
            all,
            *self,
            *score,
            *selection.allowance,
            floor,
            capping,
        ));
        Ok(hi - lo)
    }

    /// Inserts the points of a batch that are not there yet, and returns how many
    /// they are. With estimates of the dimension around each vector, those of the
    /// highest estimate come first, where the batch is not small.
    ///
    /// First each new point gets a node; a vector of another dimension ends the
    /// batch there. Then the nodes are linked, all from the entry point; in a graph
    /// without one the first new node becomes it. Last, new nodes of a higher level
    /// than the highest become the entry point.
    pub fn par_insert_batch<F: Fn(&[Score], &[Score]) -> Score, S: Fn(Score, usize) -> Score>(
        &mut self,
        score: &F,
        selection: &Selection<'_, S>,
        capping: bool,
        batch: &[BatchEntry],
        lids: Option<&[Score]>,
    ) -> (r: Result<usize, DBError>)
        requires
            old(self).wf(),
            arith::is_measure(*score),
            arith::is_scaling(*selection.allowance),
            old(self).nodes() + batch@.len() <= NO_EP,
            forall|i: int| 0 <= i < batch@.len() ==> (#[trigger] batch@[i]).level <= old(self).max_level_cap,
            capping ==> old(self).stored_cap_l0 < usize::MAX && old(self).m < usize::MAX,
            lids matches Some(estimates) ==> estimates@.len() == batch@.len(),
        ensures
            final(self).wf(),
            lids is None ==> match r {
                Ok(count) => taken(
                    *old(self),
                    *final(self),
                    batch@,
                    *score,
                    *selection.allowance,
                    selection.floor as int,
                    capping,
                    count as int,
                ),
                Err(e) => refused(*old(self), *final(self), batch@, e),
            },
            lids matches Some(estimates) ==> exists|sorted: Seq<BatchEntry>| #[trigger]
                in_lid_order(batch@, estimates@, sorted) && match r {
                    Ok(count) => taken(
                        *old(self),
                        *final(self),
                        sorted,
                        *score,
                        *selection.allowance,
                        selection.floor as int,
                        capping,
                        count as int,
                    ),
                    Err(e) => refused(*old(self), *final(self), sorted, e),
                },
    {
        match lids {
            None => self.insert_in_turn(score, selection, capping, batch),
            Some(estimates) => {
                if batch.len() < lid::MIN_BATCH {
                    assert(in_lid_order(batch@, estimates@, batch@));
                    return self.insert_in_turn(score, selection, capping, batch);
                }
                let sorted: Vec<BatchEntry> = by_lid(batch, estimates);
                assert forall|i: int| 0 <= i < sorted@.len() implies (#[trigger] sorted@[i]).level
                    <= old(self).max_level_cap by {
                    assert(stands_for(batch@, estimates@, i, sorted@[i]));
                    let at = choose|at: int|
                        lid::is_last_position(
                            ids_of(batch@),
                            ids_of(batch@)[lid::lid_sorted(estimates@)[i]],
                            at,
                        ) && #[trigger] same_entry(sorted@[i], batch@[at]);
                    assert(batch@[at].level <= old(self).max_level_cap);
                }
                self.insert_in_turn(score, selection, capping, sorted.as_slice())
            },
        }
    }
}

/// Whether inserting entries in turn may lead from one graph to another, with so many
/// new points.
pub open spec fn taken<F, S>(
    before: HNSWIndex,
    after: HNSWIndex,
    entries: Seq<BatchEntry>,
    score: F,
    allowance: S,
    floor: int,
    capping: bool,
    count: int,
) -> bool where F: Fn(&[Score], &[Score]) -> Score, S: Fn(Score, usize) -> Score {
    exists|all: HNSWIndex| #[trigger]
        allocated(before, all, entries) && count == all.nodes() - before.nodes() && batch_inserted(
            before,
            all,
            after,
            score,
            allowance,
            floor,
            capping,
        )
}

/// Whether two entries hold the same.
pub open spec fn same_entry(a: BatchEntry, b: BatchEntry) -> bool {
    a.id == b.id && a.level == b.level && a.vector@ == b.vector@
}

/// Whether an entry stands at a place of a batch sorted by estimates: it is the last
/// of the batch with the id that stands there.
pub open spec fn stands_for(batch: Seq<BatchEntry>, lids: Seq<Score>, i: int, entry: BatchEntry) -> bool {
    exists|at: int|
        lid::is_last_position(ids_of(batch), ids_of(batch)[lid::lid_sorted(lids)[i]], at) && #[trigger] same_entry(
            entry,
            batch[at],
        )
}

/// Whether entries are those of a batch in the order of their estimates, the highest
/// first; a small batch stays as it is.
pub open spec fn in_lid_order(batch: Seq<BatchEntry>, lids: Seq<Score>, sorted: Seq<BatchEntry>) -> bool {
    if batch.len() < lid::MIN_BATCH {
        sorted == batch
    } else {
        &&& sorted.len() == batch.len()
        &&& forall|i: int| 0 <= i < sorted.len() ==> stands_for(batch, lids, i, #[trigger] sorted[i])
    }
}

/// The entries of a batch in the order of their estimates.
fn by_lid(batch: &[BatchEntry], lids: &[Score]) -> (r: Vec<BatchEntry>)
    requires
        lids@.len() == batch@.len(),
        batch@.len() >= lid::MIN_BATCH,
    ensures
        in_lid_order(batch@, lids@, r@),
{
    let mut ids: Vec<PointId> = Vec::with_capacity(batch.len());
    let mut k: usize = 0;
    while k < batch.len()
        invariant
            k <= batch@.len(),
            ids@ == ids_of(batch@).take(k as int),
        decreases batch@.len() - k,
    {
        ids.push(batch[k].id);
        assert(ids_of(batch@).take(k + 1) =~= ids_of(batch@).take(k as int).push(batch@[k as int].id));
        k += 1;
    }
    assert(ids@ =~= ids_of(batch@));
    let order: Vec<usize> = lid::batch_order(ids.as_slice(), lids);
    let mut sorted: Vec<BatchEntry> = Vec::with_capacity(order.len());
    let mut i: usize = 0;
    while i < order.len()
        invariant
            i <= order@.len(),
            order@.len() == batch@.len(),
            lids@.len() == batch@.len(),
            ids@ == ids_of(batch@),
            forall|k: int|
                0 <= k < order@.len() ==> lid::is_last_position(
                    ids@,
                    ids@[lid::lid_sorted(lids@)[k]],
                    #[trigger] order@[k] as int,
                ),
            sorted@.len() == i,
            forall|k: int| 0 <= k < i ==> stands_for(batch@, lids@, k, #[trigger] sorted@[k]),
        decreases order@.len() - i,
    {
        let at: usize = order[i];
        let entry: &BatchEntry = &batch[at];
        let vector: Vec<Score> = vstd::slice::slice_to_vec(entry.vector.as_slice());
        assert(vector@ =~= entry.vector@);
        let copy: BatchEntry = BatchEntry { id: entry.id, vector, level: entry.level };
        assert(same_entry(copy, batch@[at as int]));
        assert(stands_for(batch@, lids@, i as int, copy));
        sorted.push(copy);
        i += 1;
    }
    sorted
}

/// Whether a batch was refused for a vector of another dimension, with nodes for
/// the points before it.
pub open spec fn refused(before: HNSWIndex, after: HNSWIndex, batch: Seq<BatchEntry>, error: DBError) -> bool {
    exists|k: int|
        #![trigger batch.take(k)]
        0 <= k < batch.len() && allocated(before, after, batch.take(k)) && !after.ids@.contains(batch[k].id)
            && batch[k].vector@.len() != before.dim && error == (DBError::VectorLengthMismatch {
            expected: before.dim,
            actual: batch[k].vector@.len() as usize,
        })
}

/// A new node has the level that was drawn for its point.
proof fn lemma_allocated_levels(before: HNSWIndex, after: HNSWIndex, batch: Seq<BatchEntry>, node: int)
    requires
        before.wf(),
        allocated(before, after, batch),
        forall|i: int| 0 <= i < batch.len() ==> (#[trigger] batch[i]).level <= before.max_level_cap,
        before.nodes() <= node < after.nodes(),
    ensures
        after.levels@.len() == after.nodes(),
        after.levels@[node] <= before.max_level_cap,
    decreases batch.len(),
{
    if batch.len() > 0 {
        let last = batch.last();
        let rest = batch.drop_last();
        let mid = choose|mid: HNSWIndex|
            allocated(before, mid, rest) && #[trigger] took(mid, after, last);
        assert forall|i: int| 0 <= i < rest.len() implies (#[trigger] rest[i]).level <= before.max_level_cap by {
            assert(batch[i].level <= before.max_level_cap);
        }
        lemma_allocated(before, mid, rest);
        lemma_allocated_len(before, mid, rest);
        if node < mid.nodes() {
            lemma_allocated_levels(before, mid, rest, node);
        } else {
            assert(batch[batch.len() - 1].level <= before.max_level_cap);
        }
    }
}

proof fn lemma_allocated_len(before: HNSWIndex, after: HNSWIndex, batch: Seq<BatchEntry>)
    requires
        before.wf(),
        allocated(before, after, batch),
    ensures
        after.levels@.len() == after.nodes(),
    decreases batch.len(),
{
    if batch.len() > 0 {
        let last = batch.last();
        let mid = choose|mid: HNSWIndex|
            allocated(before, mid, batch.drop_last()) && #[trigger] took(mid, after, last);
        lemma_allocated_len(before, mid, batch.drop_last());
    }
}

/// The ids of the points of a batch.
pub open spec fn ids_of(batch: Seq<BatchEntry>) -> Seq<PointId> {
    batch.map_values(|entry: BatchEntry| entry.id)
}

/// The vectors of the points of a batch.
pub open spec fn vectors_of(batch: Seq<BatchEntry>) -> Seq<Seq<Score>> {
    batch.map_values(|entry: BatchEntry| entry.vector@)
}

/// A batch of new points, each with its own id, adds exactly these points, in their
/// order, behind those that were there.
pub proof fn law_batch_adds_its_points(before: HNSWIndex, all: HNSWIndex, batch: Seq<BatchEntry>)
    requires
        before.wf(),
        allocated(before, all, batch),
        ids_of(batch).no_duplicates(),
        forall|i: int| 0 <= i < batch.len() ==> !before.ids@.contains((#[trigger] batch[i]).id),
    ensures
        all.ids@ == before.ids@ + ids_of(batch),
        all.vectors.vectors() == before.vectors.vectors() + vectors_of(batch),
        all.deleted@ == before.deleted@ + Seq::new(batch.len(), |i: int| false),
        all.nodes() == before.nodes() + batch.len(),
        all.metric == before.metric,
        all.m == before.m,
        all.stored_cap_l0 == before.stored_cap_l0,
        all.max_level_cap == before.max_level_cap,
        all.dim == before.dim,
    decreases batch.len(),
{
    if batch.len() == 0 {
        assert(all.ids@ =~= before.ids@ + ids_of(batch));
        assert(all.vectors.vectors() =~= before.vectors.vectors() + vectors_of(batch));
        assert(all.deleted@ =~= before.deleted@ + Seq::new(batch.len(), |i: int| false));
    } else {
        let rest = batch.drop_last();
        let last = batch.last();
        let mid = choose|mid: HNSWIndex| allocated(before, mid, rest) && #[trigger] took(mid, all, last);
        assert forall|i: int, j: int| 0 <= i < rest.len() && 0 <= j < rest.len() && i != j implies ids_of(rest)[i]
            != ids_of(rest)[j] by {
            assert(ids_of(batch)[i] != ids_of(batch)[j]);
        }
        assert forall|i: int| 0 <= i < rest.len() implies !before.ids@.contains((#[trigger] rest[i]).id) by {
            assert(!before.ids@.contains(batch[i].id));
        }
        law_batch_adds_its_points(before, mid, rest);
        assert(!mid.ids@.contains(last.id)) by {
            if mid.ids@.contains(last.id) {
                let k = choose|k: int| 0 <= k < mid.ids@.len() && mid.ids@[k] == last.id;
                if k < before.ids@.len() {
                    assert(before.ids@[k] == last.id);
                    assert(before.ids@.contains(batch[batch.len() - 1].id));
                } else {
                    let i = k - before.ids@.len();
                    assert(ids_of(rest)[i] == last.id);
                    assert(ids_of(batch)[i] == ids_of(batch)[batch.len() - 1]);
                }
            }
        }
        assert(ids_of(batch) =~= ids_of(rest).push(last.id));
        assert(vectors_of(batch) =~= vectors_of(rest).push(last.vector@));
        assert(all.ids@ =~= before.ids@ + ids_of(batch));
        assert(all.vectors.vectors() =~= before.vectors.vectors() + vectors_of(batch));
        assert(all.deleted@ =~= before.deleted@ + Seq::new(batch.len(), |i: int| false));
    }
}

/// The entries of a batch that bring a point which is not among known ones: of entries
/// with the same id the first.
pub open spec fn newcomers(known: Seq<PointId>, batch: Seq<BatchEntry>) -> Seq<BatchEntry>
    decreases batch.len(),
{
    if batch.len() == 0 {
        Seq::empty()
    } else {
        let rest = batch.drop_last();
        let before = newcomers(known, rest);
        if known.contains(batch.last().id) || ids_of(rest).contains(batch.last().id) {
            before
        } else {
            before.push(batch.last())
        }
    }
}

/// The points of a batch that were not there enter, in their order, behind those that
/// were; of entries with the same id the first counts, and a point that was there stays
/// as it was. There are as many new nodes as the batch has different new ids.
pub proof fn law_batch_adds_its_newcomers(before: HNSWIndex, all: HNSWIndex, batch: Seq<BatchEntry>)
    requires
        before.wf(),
        allocated(before, all, batch),
    ensures
        ({
            let new = newcomers(before.ids@, batch);
            &&& all.ids@ == before.ids@ + ids_of(new)
            &&& all.vectors.vectors() == before.vectors.vectors() + vectors_of(new)
            &&& all.levels@ == before.levels@ + new.map_values(|entry: BatchEntry| entry.level as u8)
            &&& all.deleted@ == before.deleted@ + Seq::new(new.len(), |i: int| false)
            &&& all.nodes() == before.nodes() + new.len()
            &&& new.len() == ids_of(batch).to_set().difference(before.ids@.to_set()).len()
        }),
    decreases batch.len(),
{
    lemma_newcomers(before.ids@, batch);
    let new = newcomers(before.ids@, batch);
    if batch.len() == 0 {
        assert(all.ids@ =~= before.ids@ + ids_of(new));
        assert(all.vectors.vectors() =~= before.vectors.vectors() + vectors_of(new));
        assert(all.levels@ =~= before.levels@ + new.map_values(|entry: BatchEntry| entry.level as u8));
        assert(all.deleted@ =~= before.deleted@ + Seq::new(new.len(), |i: int| false));
    } else {
        let rest = batch.drop_last();
        let last = batch.last();
        let mid = choose|mid: HNSWIndex| allocated(before, mid, rest) && #[trigger] took(mid, all, last);
        law_batch_adds_its_newcomers(before, mid, rest);
        lemma_newcomers(before.ids@, rest);
        let older = newcomers(before.ids@, rest);
        assert(mid.ids@.contains(last.id) <==> before.ids@.contains(last.id) || ids_of(rest).contains(last.id)) by {
            if before.ids@.contains(last.id) {
                let k = choose|k: int| 0 <= k < before.ids@.len() && before.ids@[k] == last.id;
                assert(mid.ids@[k] == last.id);
            }
            if ids_of(older).contains(last.id) {
                let k = choose|k: int| 0 <= k < ids_of(older).len() && ids_of(older)[k] == last.id;
                assert(mid.ids@[before.ids@.len() + k] == last.id);
            }
            if mid.ids@.contains(last.id) {
                let k = choose|k: int| 0 <= k < mid.ids@.len() && mid.ids@[k] == last.id;
                if k < before.ids@.len() {
                    assert(before.ids@[k] == last.id);
                } else {
                    assert(ids_of(older)[k - before.ids@.len()] == last.id);
                }
            }
        }
        if !mid.ids@.contains(last.id) {
            assert(ids_of(new) =~= ids_of(older).push(last.id));
            assert(vectors_of(new) =~= vectors_of(older).push(last.vector@));
            assert(all.ids@ =~= before.ids@ + ids_of(new));
            assert(all.vectors.vectors() =~= before.vectors.vectors() + vectors_of(new));
            assert(all.levels@ =~= before.levels@ + new.map_values(|entry: BatchEntry| entry.level as u8));
            assert(all.deleted@ =~= before.deleted@ + Seq::new(new.len(), |i: int| false));
        }
    }
}

/// What inserting entries gives: the points that were not there, in their order, behind
/// those that were, and as their number that of the different new ids.
pub proof fn law_inserted_batch_adds_its_newcomers<F, S>(
    before: HNSWIndex,
    after: HNSWIndex,
    entries: Seq<BatchEntry>,
    score: F,
    allowance: S,
    floor: int,
    capping: bool,
    count: int,
) where F: Fn(&[Score], &[Score]) -> Score, S: Fn(Score, usize) -> Score
    requires
        before.wf(),
        taken(before, after, entries, score, allowance, floor, capping, count),
    ensures
        count == ids_of(entries).to_set().difference(before.ids@.to_set()).len(),
        after.nodes() == before.nodes() + count,
        after.ids@ == before.ids@ + ids_of(newcomers(before.ids@, entries)),
        after.vectors.vectors() == before.vectors.vectors() + vectors_of(newcomers(before.ids@, entries)),
        after.deleted@ == before.deleted@ + Seq::new(newcomers(before.ids@, entries).len(), |i: int| false),
{
    let all = choose|all: HNSWIndex| #[trigger]
        allocated(before, all, entries) && count == all.nodes() - before.nodes() && batch_inserted(
            before,
            all,
            after,
            score,
            allowance,
            floor,
            capping,
        );
    law_batch_adds_its_newcomers(before, all, entries);
}

/// Newcomers have the ids of the batch that are not known, each once.
proof fn lemma_newcomers(known: Seq<PointId>, batch: Seq<BatchEntry>)
    ensures
        ids_of(newcomers(known, batch)).no_duplicates(),
        forall|id: PointId| #[trigger]
            ids_of(newcomers(known, batch)).contains(id) <==> ids_of(batch).contains(id) && !known.contains(id),
        newcomers(known, batch).len() == ids_of(batch).to_set().difference(known.to_set()).len(),
    decreases batch.len(),
{
    let new = newcomers(known, batch);
    if batch.len() > 0 {
        let rest = batch.drop_last();
        let last = batch.last();
        let older = newcomers(known, rest);
        lemma_newcomers(known, rest);
        assert(ids_of(batch) =~= ids_of(rest).push(last.id));
        assert forall|id: PointId| #[trigger] ids_of(batch).contains(id) <==> ids_of(rest).contains(id) || id == last.id by {
            if ids_of(rest).contains(id) {
                let k = choose|k: int| 0 <= k < ids_of(rest).len() && ids_of(rest)[k] == id;
                assert(ids_of(batch)[k] == id);
            }
            if id == last.id {
                assert(ids_of(batch)[batch.len() - 1] == id);
            }
            if ids_of(batch).contains(id) && id != last.id {
                let k = choose|k: int| 0 <= k < ids_of(batch).len() && ids_of(batch)[k] == id;
                assert(ids_of(rest)[k] == id);
            }
        }
        if new.len() > older.len() {
            assert(ids_of(new) =~= ids_of(older).push(last.id));
            assert forall|id: PointId| #[trigger] ids_of(new).contains(id) <==> ids_of(older).contains(id) || id
                == last.id by {
                if ids_of(older).contains(id) {
                    let k = choose|k: int| 0 <= k < ids_of(older).len() && ids_of(older)[k] == id;
                    assert(ids_of(new)[k] == id);
                }
                if id == last.id {
                    assert(ids_of(new)[older.len() as int] == id);
                }
                if ids_of(new).contains(id) && id != last.id {
                    let k = choose|k: int| 0 <= k < ids_of(new).len() && ids_of(new)[k] == id;
                    assert(ids_of(older)[k] == id);
                }
            }
            assert(!ids_of(older).contains(last.id));
            assert(ids_of(new).no_duplicates());
        } else {
            assert(new == older);
        }
    }
    ids_of(new).unique_seq_to_set();
    assert(ids_of(new).to_set() =~= ids_of(batch).to_set().difference(known.to_set()));
}

} // verus!
