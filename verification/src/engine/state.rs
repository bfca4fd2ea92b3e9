//! The documents of an index with what is derived from them, and how both change
//! together.

use std::sync::Arc;
use vstd::prelude::*;
use crate::arith;
use crate::hnsw::graph::HNSWIndex;
use crate::hnsw::types::DistanceMetric;
use crate::ids;
use crate::ids::{IdMap, IdSet};
use crate::order;
use crate::score::Score;
use crate::storage::ObjectLocation;

verus! {

/// What an index keeps of a document.
pub struct DocumentRecord {
    /// The nearest centroid of each vector.
    pub centroid_ids: Vec<u32>,
    /// The centroids among them, ascending, each once.
    pub unique_centroids: Vec<u32>,
    pub location: ObjectLocation,
    pub fde_location: ObjectLocation,
    /// The caller's metadata, as JSON text.
    pub metadata: String,
    pub tokens: usize,
    pub compressed_bytes: u64,
}

/// A document record, as a mathematical value.
#[verifier::ext_equal]
pub struct RecordView {
    pub centroid_ids: Seq<u32>,
    pub unique_centroids: Seq<u32>,
    pub location: ObjectLocation,
    pub fde_location: ObjectLocation,
    pub metadata: Seq<char>,
    pub tokens: nat,
    pub compressed_bytes: nat,
}

impl View for DocumentRecord {
    type V = RecordView;

    open spec fn view(&self) -> RecordView {
        RecordView {
            centroid_ids: self.centroid_ids@,
            unique_centroids: self.unique_centroids@,
            location: self.location,
            fde_location: self.fde_location,
            metadata: self.metadata@,
            tokens: self.tokens as nat,
            compressed_bytes: self.compressed_bytes as nat,
        }
    }
}

/// Whether `unique` lists what occurs in `all`, ascending, each once.
pub open spec fn is_sorted_unique(all: Seq<u32>, unique: Seq<u32>) -> bool {
    &&& forall|i: int, j: int| 0 <= i < j < unique.len() ==> #[trigger] unique[i] < #[trigger] unique[j]
    &&& forall|x: u32| #[trigger] unique.contains(x) <==> all.contains(x)
}

/// There is one such list.
pub proof fn law_sorted_unique_is_unique(all: Seq<u32>, a: Seq<u32>, b: Seq<u32>)
    requires
        is_sorted_unique(all, a),
        is_sorted_unique(all, b),
    ensures
        a == b,
    decreases a.len(),
{
    if a.len() == 0 {
        if b.len() > 0 {
            assert(b.contains(b[0]));
            assert(a.contains(b[0]));
        }
        assert(a =~= b);
    } else {
        assert(a.contains(a[0]));
        assert(b.contains(a[0]));
        let x = a.last();
        let y = b.last();
        assert(a.contains(x) && b.contains(y));
        assert(b.contains(x) && a.contains(y));
        let i = choose|i: int| 0 <= i < b.len() && b[i] == x;
        let j = choose|j: int| 0 <= j < a.len() && a[j] == y;
        assert(x == y) by {
            if i < b.len() - 1 {
                assert(b[i] < b[b.len() - 1]);
            }
            if j < a.len() - 1 {
                assert(a[j] < a[a.len() - 1]);
            }
        }
        let front_a = a.drop_last();
        let front_b = b.drop_last();
        assert forall|v: u32| #[trigger] front_a.contains(v) <==> front_b.contains(v) by {
            if front_a.contains(v) {
                let k = choose|k: int| 0 <= k < front_a.len() && front_a[k] == v;
                assert(a[k] < a[a.len() - 1]);
                assert(a.contains(v));
                assert(b.contains(v));
                let m = choose|m: int| 0 <= m < b.len() && b[m] == v;
                assert(front_b[m] == v);
            }
            if front_b.contains(v) {
                let k = choose|k: int| 0 <= k < front_b.len() && front_b[k] == v;
                assert(b[k] < b[b.len() - 1]);
                assert(b.contains(v));
                assert(a.contains(v));
                let m = choose|m: int| 0 <= m < a.len() && a[m] == v;
                assert(front_a[m] == v);
            }
        }
        law_sorted_unique_is_unique(front_b, front_a, front_b);
        assert(a =~= front_a.push(x));
        assert(b =~= front_b.push(y));
    }
}

/// What occurs in a list, ascending, each once.
pub fn sorted_unique(all: &[u32]) -> (r: Vec<u32>)
    ensures
        is_sorted_unique(all@, r@),
{
    let mut pairs: Vec<(i64, u64)> = Vec::with_capacity(all.len());
    let mut i: usize = 0;
    while i < all.len()
        invariant
            i <= all@.len(),
            pairs@.len() == i,
            forall|k: int| 0 <= k < i ==> #[trigger] pairs@[k] == (all@[k] as i64, 0u64),
        decreases all@.len() - i,
    {
        pairs.push((all[i] as i64, 0));
        i += 1;
    }
    let ghost keyed = pairs@;
    order::sort_pairs(&mut pairs);
    proof {
        order::law_sorted_pairs(keyed);
        assert forall|k: int| 0 <= k < pairs@.len() implies 0 <= (#[trigger] pairs@[k]).0 <= u32::MAX && pairs@[k].1 == 0
            && all@.contains(pairs@[k].0 as u32) by {
            assert(pairs@.contains(pairs@[k]));
            let m = choose|m: int| 0 <= m < keyed.len() && keyed[m] == pairs@[k];
            assert(all@[m] == pairs@[k].0);
        }
    }
    let mut out: Vec<u32> = Vec::new();
    let mut k: usize = 0;
    while k < pairs.len()
        invariant
            k <= pairs@.len(),
            order::ascending(pairs@),
            forall|a: int|
                0 <= a < pairs@.len() ==> 0 <= (#[trigger] pairs@[a]).0 <= u32::MAX && pairs@[a].1 == 0 && all@.contains(
                    pairs@[a].0 as u32,
                ),
            forall|a: int, b: int| 0 <= a < b < out@.len() ==> #[trigger] out@[a] < #[trigger] out@[b],
            k > 0 ==> out@.len() > 0 && out@[out@.len() - 1] == pairs@[k - 1].0,
            k == 0 ==> out@.len() == 0,
            forall|a: int| 0 <= a < out@.len() ==> all@.contains(#[trigger] out@[a]),
            forall|a: int| 0 <= a < k ==> out@.contains((#[trigger] pairs@[a]).0 as u32),
        decreases pairs@.len() - k,
    {
        let value: u32 = pairs[k].0 as u32;
        let ghost before = out@;
        proof {
            if k > 0 {
                assert(order::pair_leq(pairs@[k - 1], pairs@[k as int]));
            }
        }
        if out.len() == 0 || out[out.len() - 1] != value {
            out.push(value);
            proof {
                assert forall|a: int| 0 <= a < k + 1 implies out@.contains((#[trigger] pairs@[a]).0 as u32) by {
                    if a < k {
                        let p = choose|p: int| 0 <= p < before.len() && before[p] == pairs@[a].0 as u32;
                        assert(out@[p] == before[p]);
                    } else {
                        assert(out@[before.len() as int] == value);
                    }
                }
                assert forall|a: int, b: int| 0 <= a < b < out@.len() implies #[trigger] out@[a] < #[trigger] out@[b] by {
                    if b == before.len() {
                        if a < before.len() - 1 {
                            assert(before[a] < before[before.len() - 1]);
                        }
                    }
                }
            }
        } else {
            assert(out@.contains(value)) by {
                assert(out@[out@.len() - 1] == value);
            }
        }
        k += 1;
    }
    proof {
        assert forall|x: u32| #[trigger] out@.contains(x) <==> all@.contains(x) by {
            if all@.contains(x) {
                let m = choose|m: int| 0 <= m < all@.len() && all@[m] == x;
                assert(keyed[m] == (x as i64, 0u64));
                assert(keyed.contains(keyed[m]));
                assert(pairs@.contains(keyed[m]));
                let a = choose|a: int| 0 <= a < pairs@.len() && pairs@[a] == keyed[m];
                assert(out@.contains(pairs@[a].0 as u32));
            }
        }
    }
    out
}

/// What an index has for finding documents by their encodings: a graph over the
/// documents of one generation, and what has changed since.
pub struct FdeAnn {
    /// The graph over the encodings of the documents that it was built for. States
    /// share it.
    pub graph: Arc<HNSWIndex>,
    /// The documents of the graph. The point of a document is its position here.
    pub base: IdSet,
    /// The points that no longer stand for a document.
    pub tombstones: Vec<bool>,
    /// The documents written since; they are compared one by one.
    pub delta: IdSet,
    /// The generation that the graph and the changes cover.
    pub generation: u64,
}

/// A graph and the changes since, as a mathematical value.
#[verifier::ext_equal]
pub struct AnnView {
    pub graph: HNSWIndex,
    pub base: Seq<Seq<char>>,
    pub tombstones: Seq<bool>,
    pub delta: Set<Seq<char>>,
    pub generation: nat,
}

/// The documents of an index and what is derived from them.
pub struct State {
    pub generation: u64,
    pub codebook: Vec<Vec<Score>>,
    pub residual_codebook: Vec<Score>,
    pub documents: IdMap<DocumentRecord>,
    /// For each centroid, the documents with a vector near it.
    pub postings: Vec<IdSet>,
    pub fde_ann: Option<FdeAnn>,
}

/// The state of an index, as a mathematical value.
#[verifier::ext_equal]
pub struct StateView {
    pub generation: nat,
    pub codebook: Seq<Seq<Score>>,
    pub residual_codebook: Seq<Score>,
    pub documents: Map<Seq<char>, RecordView>,
    pub postings: Seq<Set<Seq<char>>>,
    pub fde_ann: Option<AnnView>,
}

/// The ids of a set.
pub open spec fn id_set(set: IdSet) -> Set<Seq<char>> {
    set.contents().dom()
}

/// The records of a map.
pub open spec fn records(map: IdMap<DocumentRecord>) -> Map<Seq<char>, RecordView> {
    map.contents().map_values(|record: DocumentRecord| record@)
}

impl View for FdeAnn {
    type V = AnnView;

    open spec fn view(&self) -> AnnView {
        AnnView {
            graph: *self.graph,
            base: self.base.ids(),
            tombstones: self.tombstones@,
            delta: id_set(self.delta),
            generation: self.generation as nat,
        }
    }
}

/// Whether a graph that compares by product has so many points, numbered from zero,
/// each with a node that is not deleted.
pub open spec fn spans(graph: HNSWIndex, points: nat) -> bool {
    &&& graph.wf()
    &&& graph.metric == DistanceMetric::Dot
    &&& graph.nodes() == points
    &&& forall|node: int| 0 <= node < graph.ids@.len() ==> (#[trigger] graph.ids@[node]) < points
    &&& forall|point: int|
        0 <= point < points ==> (#[trigger] graph.node_of(point as u64)) is Some && !graph.deleted@[graph.node_of(
            point as u64,
        )->0]
}

/// Whether the vectors of a graph, if there is one, have this dimension.
pub open spec fn graph_fits(ann: Option<AnnView>, dimension: nat) -> bool {
    ann matches Some(a) ==> a.graph.dim == dimension
}

impl FdeAnn {
    /// Whether the collections are well-formed, each point has its mark, and the
    /// graph has the points.
    pub open spec fn ok(&self) -> bool {
        &&& self.base.wf()
        &&& spans(*self.graph, self.base.ids().len())
        &&& self.delta.wf()
        &&& self.tombstones@.len() == self.base.ids().len()
    }
}

impl View for State {
    type V = StateView;

    open spec fn view(&self) -> StateView {
        StateView {
            generation: self.generation as nat,
            codebook: arith::rows(self.codebook@),
            residual_codebook: self.residual_codebook@,
            documents: records(self.documents),
            postings: self.postings@.map_values(|set: IdSet| id_set(set)),
            fde_ann: match self.fde_ann {
                Some(ann) => Some(ann@),
                None => None,
            },
        }
    }
}

impl State {
    /// Whether the collections are well-formed.
    pub open spec fn ok(&self) -> bool {
        &&& self.documents.wf()
        &&& self.postings@.len() == self.codebook@.len()
        &&& forall|c: int| 0 <= c < self.postings@.len() ==> (#[trigger] self.postings@[c]).wf()
        &&& self.fde_ann matches Some(ann) ==> ann.ok()
    }
}

/// Whether a record fits a codebook of so many centroids.
pub open spec fn record_fits(record: RecordView, centroids: nat) -> bool {
    &&& record.tokens > 0
    &&& record.centroid_ids.len() == record.tokens
    &&& forall|i: int| 0 <= i < record.centroid_ids.len() ==> (#[trigger] record.centroid_ids[i]) < centroids
    &&& is_sorted_unique(record.centroid_ids, record.unique_centroids)
    &&& record.compressed_bytes == record.location.length
}

impl AnnView {
    /// Whether a point stands for its document.
    pub open spec fn live(self, point: int) -> bool {
        0 <= point < self.base.len() && !self.tombstones[point]
    }

    /// Whether the graph and the changes together hold every document once, and
    /// nothing else.
    pub open spec fn covers(self, documents: Set<Seq<char>>) -> bool {
        &&& self.base.no_duplicates()
        &&& self.tombstones.len() == self.base.len()
        &&& forall|point: int|
            #![trigger self.live(point)]
            self.live(point) ==> documents.contains(self.base[point]) && !self.delta.contains(self.base[point])
        &&& self.delta.subset_of(documents)
        &&& forall|id: Seq<char>|
            #[trigger] documents.contains(id) && !self.delta.contains(id) ==> exists|point: int|
                #[trigger] self.live(point) && self.base[point] == id
    }

    /// The marks after the point of a document, if it has one, was marked.
    pub open spec fn marked(self, id: Seq<char>) -> Seq<bool> {
        Seq::new(self.tombstones.len(), |point: int| self.tombstones[point] || self.base[point] == id)
    }
}

impl StateView {
    /// Whether everything derived from the documents matches them.
    pub open spec fn wf(self) -> bool {
        &&& self.codebook.len() <= u32::MAX
        &&& self.postings.len() == self.codebook.len()
        &&& forall|id: Seq<char>|
            #[trigger] self.documents.dom().contains(id) ==> record_fits(self.documents[id], self.codebook.len())
        &&& forall|c: int, id: Seq<char>|
            0 <= c < self.postings.len() ==> (#[trigger] self.postings[c].contains(id) <==> self.documents.dom().contains(id)
                && self.documents[id].unique_centroids.contains(c as u32))
        &&& self.fde_ann matches Some(ann) ==> ann.generation == self.generation && ann.covers(self.documents.dom())
    }

    /// The state after a document was written.
    pub open spec fn upserted(self, id: Seq<char>, record: RecordView) -> StateView {
        StateView {
            documents: self.documents.insert(id, record),
            postings: Seq::new(
                self.postings.len(),
                |c: int|
                    if record.unique_centroids.contains(c as u32) {
                        self.postings[c].insert(id)
                    } else {
                        self.postings[c].remove(id)
                    },
            ),
            fde_ann: match self.fde_ann {
                Some(ann) => Some(AnnView { tombstones: ann.marked(id), delta: ann.delta.insert(id), ..ann }),
                None => None,
            },
            ..self
        }
    }

    /// The state after a document was dropped.
    pub open spec fn deleted(self, id: Seq<char>) -> StateView {
        StateView {
            documents: self.documents.remove(id),
            postings: Seq::new(self.postings.len(), |c: int| self.postings[c].remove(id)),
            fde_ann: match self.fde_ann {
                Some(ann) => Some(AnnView { tombstones: ann.marked(id), delta: ann.delta.remove(id), ..ann }),
                None => None,
            },
            ..self
        }
    }

    /// The state after new codebooks were trained.
    pub open spec fn trained(self, codebook: Seq<Seq<Score>>, residual_codebook: Seq<Score>) -> StateView {
        StateView {
            codebook,
            residual_codebook,
            postings: Seq::new(codebook.len(), |c: int| Set::<Seq<char>>::empty()),
            fde_ann: None,
            ..self
        }
    }

    /// The state after it became the next generation.
    pub open spec fn committed(self) -> StateView {
        StateView {
            generation: self.generation + 1,
            fde_ann: match self.fde_ann {
                Some(ann) => Some(AnnView { generation: self.generation + 1, ..ann }),
                None => None,
            },
            ..self
        }
    }
}

/// Writing a document keeps everything that is derived in step with the
/// documents: the postings, and the cover of the graph and its changes.
pub proof fn law_upsert_keeps_the_invariant(s: StateView, id: Seq<char>, record: RecordView)
    requires
        s.wf(),
        record_fits(record, s.codebook.len()),
    ensures
        s.upserted(id, record).wf(),
        s.upserted(id, record).committed().wf(),
{
    let t = s.upserted(id, record);
    assert forall|c: int, x: Seq<char>| 0 <= c < t.postings.len() implies (#[trigger] t.postings[c].contains(x)
        <==> t.documents.dom().contains(x) && t.documents[x].unique_centroids.contains(c as u32)) by {
        assert(s.postings[c].contains(x) <==> s.documents.dom().contains(x)
            && s.documents[x].unique_centroids.contains(c as u32));
    }
    if let Some(ann) = s.fde_ann {
        let after = t.fde_ann->0;
        assert forall|point: int| #![trigger after.live(point)] after.live(point) implies t.documents.dom().contains(
            after.base[point],
        ) && !after.delta.contains(after.base[point]) by {
            assert(ann.live(point));
        }
        assert forall|x: Seq<char>| #[trigger] t.documents.dom().contains(x) && !after.delta.contains(x) implies exists|
            point: int,
        |
            #[trigger] after.live(point) && after.base[point] == x by {
            assert(s.documents.dom().contains(x) && !ann.delta.contains(x));
            let point = choose|point: int| #[trigger] ann.live(point) && ann.base[point] == x;
            assert(after.live(point));
        }
        assert(after.covers(t.documents.dom()));
        let last = t.committed().fde_ann->0;
        assert(last.covers(t.documents.dom())) by {
            assert forall|point: int| #![trigger last.live(point)] last.live(point) implies t.documents.dom().contains(
                last.base[point],
            ) && !last.delta.contains(last.base[point]) by {
                assert(after.live(point));
            }
            assert forall|x: Seq<char>| #[trigger] t.documents.dom().contains(x) && !last.delta.contains(x) implies exists|
                point: int,
            |
                #[trigger] last.live(point) && last.base[point] == x by {
                let point = choose|point: int| #[trigger] after.live(point) && after.base[point] == x;
                assert(last.live(point));
            }
        }
    }
}

/// Dropping a document keeps everything that is derived in step with the
/// documents; no point and no change stands for it any more.
pub proof fn law_delete_keeps_the_invariant(s: StateView, id: Seq<char>)
    requires
        s.wf(),
    ensures
        s.deleted(id).wf(),
        s.deleted(id).committed().wf(),
        s.deleted(id).fde_ann matches Some(ann) ==> !ann.delta.contains(id) && forall|point: int|
            #[trigger] ann.live(point) ==> ann.base[point] != id,
{
    let t = s.deleted(id);
    assert forall|c: int, x: Seq<char>| 0 <= c < t.postings.len() implies (#[trigger] t.postings[c].contains(x)
        <==> t.documents.dom().contains(x) && t.documents[x].unique_centroids.contains(c as u32)) by {
        assert(s.postings[c].contains(x) <==> s.documents.dom().contains(x)
            && s.documents[x].unique_centroids.contains(c as u32));
    }
    if let Some(ann) = s.fde_ann {
        let after = t.fde_ann->0;
        assert forall|point: int| #![trigger after.live(point)] after.live(point) implies t.documents.dom().contains(
            after.base[point],
        ) && !after.delta.contains(after.base[point]) by {
            assert(ann.live(point));
        }
        assert forall|x: Seq<char>| #[trigger] t.documents.dom().contains(x) && !after.delta.contains(x) implies exists|
            point: int,
        |
            #[trigger] after.live(point) && after.base[point] == x by {
            assert(s.documents.dom().contains(x) && !ann.delta.contains(x));
            let point = choose|point: int| #[trigger] ann.live(point) && ann.base[point] == x;
            assert(after.live(point));
        }
        assert(after.covers(t.documents.dom()));
        let last = t.committed().fde_ann->0;
        assert(last.covers(t.documents.dom())) by {
            assert forall|point: int| #![trigger last.live(point)] last.live(point) implies t.documents.dom().contains(
                last.base[point],
            ) && !last.delta.contains(last.base[point]) by {
                assert(after.live(point));
            }
            assert forall|x: Seq<char>| #[trigger] t.documents.dom().contains(x) && !last.delta.contains(x) implies exists|
                point: int,
            |
                #[trigger] last.live(point) && last.base[point] == x by {
                let point = choose|point: int| #[trigger] after.live(point) && after.base[point] == x;
                assert(last.live(point));
            }
        }
    }
}

/// Training an index without documents keeps everything that is derived in step.
pub proof fn law_train_keeps_the_invariant(s: StateView, codebook: Seq<Seq<Score>>, residual_codebook: Seq<Score>)
    requires
        s.wf(),
        s.documents.dom() =~= Set::<Seq<char>>::empty(),
        codebook.len() <= u32::MAX,
    ensures
        s.trained(codebook, residual_codebook).wf(),
        s.trained(codebook, residual_codebook).committed().wf(),
{
}

/// Of two writes of one id the later one counts: the earlier one leaves no trace.
pub proof fn law_last_upsert_wins(s: StateView, id: Seq<char>, first: RecordView, second: RecordView)
    ensures
        s.upserted(id, first).upserted(id, second) == s.upserted(id, second),
{
    let a = s.upserted(id, first).upserted(id, second);
    let b = s.upserted(id, second);
    assert(a.documents =~= b.documents);
    assert(a.postings =~= b.postings) by {
        assert forall|c: int| 0 <= c < a.postings.len() implies a.postings[c] == b.postings[c] by {
            assert(a.postings[c] =~= b.postings[c]);
        }
    }
    if let Some(ann) = s.fde_ann {
        assert(a.fde_ann->0.tombstones =~= b.fde_ann->0.tombstones);
        assert(a.fde_ann->0.delta =~= b.fde_ann->0.delta);
    }
    assert(a.fde_ann == b.fde_ann);
}

/// Writes of different ids can be made in either order.
pub proof fn law_upserts_of_different_ids_commute(
    s: StateView,
    a: Seq<char>,
    first: RecordView,
    b: Seq<char>,
    second: RecordView,
)
    requires
        a != b,
    ensures
        s.upserted(a, first).upserted(b, second) == s.upserted(b, second).upserted(a, first),
{
    let x = s.upserted(a, first).upserted(b, second);
    let y = s.upserted(b, second).upserted(a, first);
    assert(x.documents =~= y.documents);
    assert(x.postings =~= y.postings) by {
        assert forall|c: int| 0 <= c < x.postings.len() implies x.postings[c] == y.postings[c] by {
            assert(x.postings[c] =~= y.postings[c]);
        }
    }
    if let Some(ann) = s.fde_ann {
        assert(x.fde_ann->0.tombstones =~= y.fde_ann->0.tombstones);
        assert(x.fde_ann->0.delta =~= y.fde_ann->0.delta);
    }
    assert(x.fde_ann == y.fde_ann);
}

/// Dropping a document after writing it drops it, whatever it held.
pub proof fn law_delete_after_upsert(s: StateView, id: Seq<char>, record: RecordView)
    ensures
        s.upserted(id, record).deleted(id) == s.deleted(id),
{
    let a = s.upserted(id, record).deleted(id);
    let b = s.deleted(id);
    assert(a.documents =~= b.documents);
    assert(a.postings =~= b.postings) by {
        assert forall|c: int| 0 <= c < a.postings.len() implies a.postings[c] == b.postings[c] by {
            assert(a.postings[c] =~= b.postings[c]);
        }
    }
    if let Some(ann) = s.fde_ann {
        assert(a.fde_ann->0.tombstones =~= b.fde_ann->0.tombstones);
        assert(a.fde_ann->0.delta =~= b.fde_ann->0.delta);
    }
    assert(a.fde_ann == b.fde_ann);
}

pub(crate) fn copy_record(record: &DocumentRecord) -> (r: DocumentRecord)
    ensures
        r@ == record@,
{
    let r = DocumentRecord {
        centroid_ids: record.centroid_ids.clone(),
        unique_centroids: record.unique_centroids.clone(),
        location: record.location,
        fde_location: record.fde_location,
        metadata: record.metadata.clone(),
        tokens: record.tokens,
        compressed_bytes: record.compressed_bytes,
    };
    assert(r.centroid_ids@ =~= record.centroid_ids@);
    assert(r.unique_centroids@ =~= record.unique_centroids@);
    r
}

fn copy_keys(keys: &Vec<String>) -> (r: Vec<String>)
    ensures
        ids::names(r@) == ids::names(keys@),
{
    let mut out: Vec<String> = Vec::with_capacity(keys.len());
    let mut i: usize = 0;
    while i < keys.len()
        invariant
            i <= keys@.len(),
            out@.len() == i,
            forall|k: int| 0 <= k < i ==> (#[trigger] out@[k])@ == keys@[k]@,
        decreases keys@.len() - i,
    {
        out.push(keys[i].clone());
        i += 1;
    }
    assert(ids::names(out@) =~= ids::names(keys@));
    out
}

fn copy_ids(set: &IdSet) -> (r: IdSet)
    requires
        set.wf(),
    ensures
        r.wf(),
        r.ids() == set.ids(),
        id_set(r) == id_set(*set),
{
    let mut values: Vec<()> = Vec::new();
    let mut i: usize = 0;
    while i < set.keys.len()
        invariant
            i <= set.keys@.len(),
            values@.len() == i,
        decreases set.keys@.len() - i,
    {
        values.push(());
        i += 1;
    }
    let r: IdSet = IdMap { keys: copy_keys(&set.keys), values };
    assert(r.keys@.len() == ids::names(r.keys@).len());
    assert(set.keys@.len() == ids::names(set.keys@).len());
    assert(id_set(r) =~= id_set(*set));
    r
}

/// The ids of a map.
pub(crate) fn key_set(map: &IdMap<DocumentRecord>) -> (r: IdSet)
    requires
        map.wf(),
    ensures
        r.wf(),
        r.ids() == map.ids(),
{
    let mut values: Vec<()> = Vec::new();
    let mut i: usize = 0;
    while i < map.keys.len()
        invariant
            i <= map.keys@.len(),
            values@.len() == i,
        decreases map.keys@.len() - i,
    {
        values.push(());
        i += 1;
    }
    let r: IdSet = IdMap { keys: copy_keys(&map.keys), values };
    assert(r.keys@.len() == ids::names(r.keys@).len());
    assert(map.keys@.len() == ids::names(map.keys@).len());
    r
}

fn copy_documents(map: &IdMap<DocumentRecord>) -> (r: IdMap<DocumentRecord>)
    requires
        map.wf(),
    ensures
        r.wf(),
        r.ids() == map.ids(),
        records(r) == records(*map),
{
    let mut values: Vec<DocumentRecord> = Vec::new();
    let mut i: usize = 0;
    while i < map.values.len()
        invariant
            i <= map.values@.len(),
            values@.len() == i,
            forall|k: int| 0 <= k < i ==> (#[trigger] values@[k])@ == map.values@[k]@,
        decreases map.values@.len() - i,
    {
        values.push(copy_record(&map.values[i]));
        i += 1;
    }
    let r: IdMap<DocumentRecord> = IdMap { keys: copy_keys(&map.keys), values };
    proof {
        assert(r.keys@.len() == ids::names(r.keys@).len());
        assert(map.keys@.len() == ids::names(map.keys@).len());
        assert(r.wf());
        assert forall|id: Seq<char>| #[trigger] records(r).dom().contains(id) implies records(r)[id] == records(*map)[id] by {
            let k = r.lemma_position(id);
            map.lemma_entry(k);
        }
        assert(records(r) =~= records(*map));
    }
    r
}

/// The records after one was written.
proof fn lemma_records_insert(before: IdMap<DocumentRecord>, after: IdMap<DocumentRecord>, id: Seq<char>, record: DocumentRecord)
    requires
        after.contents() == before.contents().insert(id, record),
    ensures
        records(after) == records(before).insert(id, record@),
{
    assert(records(after) =~= records(before).insert(id, record@));
}

proof fn lemma_records_remove(before: IdMap<DocumentRecord>, after: IdMap<DocumentRecord>, id: Seq<char>)
    requires
        after.contents() == before.contents().remove(id),
    ensures
        records(after) == records(before).remove(id),
{
    assert(records(after) =~= records(before).remove(id));
}

/// Another handle of a shared value, by `Arc::clone`: it holds the same value.
#[verifier::external_body]
fn share<T>(value: &Arc<T>) -> (r: Arc<T>)
    ensures
        *r == **value,
{
    Arc::clone(value)
}

impl FdeAnn {
    fn copy(&self) -> (r: FdeAnn)
        requires
            self.ok(),
        ensures
            r.ok(),
            r@ == self@,
    {
        let r = FdeAnn {
            graph: share(&self.graph),
            base: copy_ids(&self.base),
            tombstones: self.tombstones.clone(),
            delta: copy_ids(&self.delta),
            generation: self.generation,
        };
        assert(r.tombstones@ =~= self.tombstones@);
        r
    }

    /// Marks the point of a document, if it has one.
    fn mark(&mut self, id: &str)
        requires
            old(self).ok(),
        ensures
            final(self).ok(),
            final(self)@ == (AnnView { tombstones: old(self)@.marked(id@), ..old(self)@ }),
    {
        match self.base.find(id) {
            Some(point) => {
                self.tombstones.set(point, true);
                proof {
                    ids::law_ascending_ids_are_distinct(self.base.ids());
                    assert(self.tombstones@ =~= old(self)@.marked(id@));
                }
            },
            None => {
                proof {
                    assert forall|k: int| 0 <= k < self.base.ids().len() implies #[trigger] self.base.ids()[k] != id@ by {
                        self.base.lemma_entry(k);
                    }
                    assert(self.tombstones@ =~= old(self)@.marked(id@));
                }
            },
        }
    }

    /// How many points no longer stand for a document.
    pub fn tombstone_count(&self) -> (r: usize)
        ensures
            r == marks(self.tombstones@),
            r <= self.tombstones@.len(),
    {
        let mut count: usize = 0;
        let mut i: usize = 0;
        while i < self.tombstones.len()
            invariant
                i <= self.tombstones@.len(),
                count <= i,
                count == marks(self.tombstones@.take(i as int)),
            decreases self.tombstones@.len() - i,
        {
            assert(self.tombstones@.take(i + 1).drop_last() =~= self.tombstones@.take(i as int));
            if self.tombstones[i] {
                count += 1;
            }
            i += 1;
        }
        assert(self.tombstones@.take(i as int) =~= self.tombstones@);
        count
    }
}

/// How many marks are set.
pub open spec fn marks(tombstones: Seq<bool>) -> nat
    decreases tombstones.len(),
{
    if tombstones.len() == 0 {
        0
    } else {
        marks(tombstones.drop_last()) + if tombstones.last() {
            1nat
        } else {
            0nat
        }
    }
}

/// Removes an id from the postings that a record names.
fn unpost(postings: &mut Vec<IdSet>, centroids: &[u32], id: &str)
    requires
        forall|c: int| 0 <= c < old(postings)@.len() ==> (#[trigger] old(postings)@[c]).wf(),
        forall|k: int| 0 <= k < centroids@.len() ==> (#[trigger] centroids@[k]) < old(postings)@.len(),
        old(postings)@.len() <= u32::MAX,
    ensures
        final(postings)@.len() == old(postings)@.len(),
        forall|c: int| 0 <= c < final(postings)@.len() ==> (#[trigger] final(postings)@[c]).wf(),
        forall|c: int|
            0 <= c < final(postings)@.len() ==> id_set(#[trigger] final(postings)@[c]) == if centroids@.contains(c as u32) {
                id_set(old(postings)@[c]).remove(id@)
            } else {
                id_set(old(postings)@[c])
            },
{
    let ghost before = postings@;
    let mut k: usize = 0;
    while k < centroids.len()
        invariant
            k <= centroids@.len(),
            before.len() <= u32::MAX,
            postings@.len() == before.len(),
            forall|i: int| 0 <= i < centroids@.len() ==> (#[trigger] centroids@[i]) < before.len(),
            forall|c: int| 0 <= c < postings@.len() ==> (#[trigger] postings@[c]).wf(),
            forall|c: int|
                0 <= c < postings@.len() ==> id_set(#[trigger] postings@[c]) == if centroids@.take(k as int).contains(
                    c as u32,
                ) {
                    id_set(before[c]).remove(id@)
                } else {
                    id_set(before[c])
                },
        decreases centroids@.len() - k,
    {
        let at: usize = centroids[k] as usize;
        let ghost prior = postings@;
        let _ = postings[at].remove(id);
        proof {
            let seen = centroids@.take(k as int);
            let now = centroids@.take(k + 1);
            assert(now =~= seen.push(centroids@[k as int]));
            assert forall|c: int| 0 <= c < postings@.len() implies id_set(#[trigger] postings@[c]) == if now.contains(
                c as u32,
            ) {
                id_set(before[c]).remove(id@)
            } else {
                id_set(before[c])
            } by {
                assert(now.contains(c as u32) <==> seen.contains(c as u32) || c == at) by {
                    if seen.contains(c as u32) {
                        let m = choose|m: int| 0 <= m < seen.len() && seen[m] == c as u32;
                        assert(now[m] == c as u32);
                    }
                    if c == at {
                        assert(now[k as int] == c as u32);
                    }
                }
                if c == at {
                    assert(id_set(postings@[c]) =~= id_set(before[c]).remove(id@));
                } else {
                    assert(postings@[c] == prior[c]);
                }
            }
        }
        k += 1;
    }
    assert(centroids@.take(k as int) =~= centroids@);
}

/// Adds an id to the postings that a record names.
pub(crate) fn post(postings: &mut Vec<IdSet>, centroids: &[u32], id: &String)
    requires
        forall|c: int| 0 <= c < old(postings)@.len() ==> (#[trigger] old(postings)@[c]).wf(),
        forall|k: int| 0 <= k < centroids@.len() ==> (#[trigger] centroids@[k]) < old(postings)@.len(),
        old(postings)@.len() <= u32::MAX,
    ensures
        final(postings)@.len() == old(postings)@.len(),
        forall|c: int| 0 <= c < final(postings)@.len() ==> (#[trigger] final(postings)@[c]).wf(),
        forall|c: int|
            0 <= c < final(postings)@.len() ==> id_set(#[trigger] final(postings)@[c]) == if centroids@.contains(c as u32) {
                id_set(old(postings)@[c]).insert(id@)
            } else {
                id_set(old(postings)@[c])
            },
{
    let ghost before = postings@;
    let mut k: usize = 0;
    while k < centroids.len()
        invariant
            k <= centroids@.len(),
            before.len() <= u32::MAX,
            postings@.len() == before.len(),
            forall|i: int| 0 <= i < centroids@.len() ==> (#[trigger] centroids@[i]) < before.len(),
            forall|c: int| 0 <= c < postings@.len() ==> (#[trigger] postings@[c]).wf(),
            forall|c: int|
                0 <= c < postings@.len() ==> id_set(#[trigger] postings@[c]) == if centroids@.take(k as int).contains(
                    c as u32,
                ) {
                    id_set(before[c]).insert(id@)
                } else {
                    id_set(before[c])
                },
        decreases centroids@.len() - k,
    {
        let at: usize = centroids[k] as usize;
        let ghost prior = postings@;
        postings[at].insert(id.clone(), ());
        proof {
            let seen = centroids@.take(k as int);
            let now = centroids@.take(k + 1);
            assert(now =~= seen.push(centroids@[k as int]));
            assert forall|c: int| 0 <= c < postings@.len() implies id_set(#[trigger] postings@[c]) == if now.contains(
                c as u32,
            ) {
                id_set(before[c]).insert(id@)
            } else {
                id_set(before[c])
            } by {
                assert(now.contains(c as u32) <==> seen.contains(c as u32) || c == at) by {
                    if seen.contains(c as u32) {
                        let m = choose|m: int| 0 <= m < seen.len() && seen[m] == c as u32;
                        assert(now[m] == c as u32);
                    }
                    if c == at {
                        assert(now[k as int] == c as u32);
                    }
                }
                if c == at {
                    assert(id_set(postings@[c]) =~= id_set(before[c]).insert(id@));
                } else {
                    assert(postings@[c] == prior[c]);
                }
            }
        }
        k += 1;
    }
    assert(centroids@.take(k as int) =~= centroids@);
}

/// The list of centroids that a record names fits the codebook as its vectors'
/// centroids do.
pub proof fn lemma_unique_in_range(record: RecordView, centroids: nat)
    requires
        record_fits(record, centroids),
    ensures
        forall|k: int| 0 <= k < record.unique_centroids.len() ==> (#[trigger] record.unique_centroids[k]) < centroids,
{
    assert forall|k: int| 0 <= k < record.unique_centroids.len() implies (#[trigger] record.unique_centroids[k])
        < centroids by {
        let x = record.unique_centroids[k];
        assert(record.unique_centroids.contains(x));
        assert(record.centroid_ids.contains(x));
        let m = choose|m: int| 0 <= m < record.centroid_ids.len() && record.centroid_ids[m] == x;
        assert(record.centroid_ids[m] < centroids);
    }
}

impl State {
    /// A state with the same contents.
    pub fn copy(&self) -> (r: State)
        requires
            self.ok(),
        ensures
            r.ok(),
            r@ == self@,
            r.documents.ids() == self.documents.ids(),
    {
        let mut codebook: Vec<Vec<Score>> = Vec::new();
        let mut i: usize = 0;
        while i < self.codebook.len()
            invariant
                i <= self.codebook@.len(),
                codebook@.len() == i,
                forall|k: int| 0 <= k < i ==> (#[trigger] codebook@[k])@ == self.codebook@[k]@,
            decreases self.codebook@.len() - i,
        {
            let row: Vec<Score> = self.codebook[i].clone();
            assert(row@ =~= self.codebook@[i as int]@);
            codebook.push(row);
            i += 1;
        }
        let mut postings: Vec<IdSet> = Vec::new();
        let mut c: usize = 0;
        while c < self.postings.len()
            invariant
                self.ok(),
                c <= self.postings@.len(),
                postings@.len() == c,
                forall|k: int|
                    0 <= k < c ==> (#[trigger] postings@[k]).wf() && id_set(postings@[k]) == id_set(self.postings@[k]),
            decreases self.postings@.len() - c,
        {
            postings.push(copy_ids(&self.postings[c]));
            c += 1;
        }
        let fde_ann: Option<FdeAnn> = match &self.fde_ann {
            Some(ann) => Some(ann.copy()),
            None => None,
        };
        let r = State {
            generation: self.generation,
            codebook,
            residual_codebook: self.residual_codebook.clone(),
            documents: copy_documents(&self.documents),
            postings,
            fde_ann,
        };
        assert(r.residual_codebook@ =~= self.residual_codebook@);
        assert(r@.codebook =~= self@.codebook);
        assert(r@.postings =~= self@.postings);
        assert(r@ == self@);
        r
    }

    /// Writes a document.
    pub fn put_document(&mut self, id: String, record: DocumentRecord)
        requires
            old(self).ok(),
            old(self)@.wf(),
            record_fits(record@, old(self)@.codebook.len()),
        ensures
            final(self).ok(),
            final(self)@ == old(self)@.upserted(id@, record@),
            final(self)@.wf(),
    {
        let ghost before = self@;
        let ghost name = id@;
        let ghost fresh = record@;
        proof {
            lemma_unique_in_range(fresh, before.codebook.len());
            law_upsert_keeps_the_invariant(before, name, fresh);
        }
        if let Some(at) = self.documents.find(id.as_str()) {
            let earlier: Vec<u32> = self.documents.values[at].unique_centroids.clone();
            proof {
                assert(earlier@ =~= before.documents[name].unique_centroids);
                assert(before.documents.dom().contains(name));
                lemma_unique_in_range(before.documents[name], before.codebook.len());
            }
            unpost(&mut self.postings, earlier.as_slice(), id.as_str());
        }
        assert forall|c: int| 0 <= c < self.postings@.len() implies id_set(#[trigger] self.postings@[c])
            == before.postings[c].remove(name) by {
            assert(before.postings[c].contains(name) <==> before.documents.dom().contains(name)
                && before.documents[name].unique_centroids.contains(c as u32));
            assert(id_set(self.postings@[c]) =~= before.postings[c].remove(name));
        }
        post(&mut self.postings, record.unique_centroids.as_slice(), &id);
        if self.fde_ann.is_some() {
            let mut taken: Option<FdeAnn> = None;
            std::mem::swap(&mut taken, &mut self.fde_ann);
            if let Some(mut ann) = taken {
                ann.mark(id.as_str());
                ann.delta.insert(id.clone(), ());
                assert(id_set(ann.delta) =~= before.fde_ann->0.delta.insert(name));
                self.fde_ann = Some(ann);
            }
        }
        let ghost earlier_documents = self.documents;
        self.documents.insert(id, record);
        proof {
            lemma_records_insert(earlier_documents, self.documents, name, record);
            let goal = before.upserted(name, fresh);
            assert(self@.postings =~= goal.postings) by {
                assert forall|c: int| 0 <= c < goal.postings.len() implies self@.postings[c] == goal.postings[c] by {
                    assert(self@.postings[c] =~= goal.postings[c]);
                }
            }
            assert(self@.documents == goal.documents);
            assert(self@.fde_ann == goal.fde_ann);
            assert(self@ == goal);
        }
    }

    /// Drops a document, and says whether there was one.
    pub fn drop_document(&mut self, id: &str) -> (r: bool)
        requires
            old(self).ok(),
            old(self)@.wf(),
        ensures
            final(self).ok(),
            final(self)@.wf(),
            r == old(self)@.documents.dom().contains(id@),
            r ==> final(self)@ == old(self)@.deleted(id@),
            !r ==> final(self)@ == old(self)@,
    {
        let ghost before = self@;
        let ghost name = id@;
        let ghost earlier_documents = self.documents;
        proof {
            law_delete_keeps_the_invariant(before, name);
        }
        match self.documents.remove(id) {
            None => {
                proof {
                    lemma_records_remove(earlier_documents, self.documents, name);
                    assert(self@.documents =~= before.documents);
                    assert(self@ == before);
                }
                false
            },
            Some(record) => {
                proof {
                    assert(before.documents.dom().contains(name));
                    assert(record@ == before.documents[name]);
                    lemma_unique_in_range(before.documents[name], before.codebook.len());
                    lemma_records_remove(earlier_documents, self.documents, name);
                }
                unpost(&mut self.postings, record.unique_centroids.as_slice(), id);
                if self.fde_ann.is_some() {
                    let mut taken: Option<FdeAnn> = None;
                    std::mem::swap(&mut taken, &mut self.fde_ann);
                    if let Some(mut ann) = taken {
                        ann.mark(id);
                        let _ = ann.delta.remove(id);
                        assert(id_set(ann.delta) =~= before.fde_ann->0.delta.remove(name));
                        self.fde_ann = Some(ann);
                    }
                }
                proof {
                    let goal = before.deleted(name);
                    assert(self@.postings =~= goal.postings) by {
                        assert forall|c: int| 0 <= c < goal.postings.len() implies self@.postings[c] == goal.postings[c] by {
                            assert(before.postings[c].contains(name) <==> before.documents.dom().contains(name)
                                && before.documents[name].unique_centroids.contains(c as u32));
                            assert(self@.postings[c] =~= goal.postings[c]);
                        }
                    }
                    assert(self@.fde_ann == goal.fde_ann);
                    assert(self@ == goal);
                }
                true
            },
        }
    }

    /// Makes the state the next generation. Where there is none, nothing changes.
    pub fn advance(&mut self) -> (r: bool)
        requires
            old(self).ok(),
        ensures
            final(self).ok(),
            r == (old(self).generation < u64::MAX),
            r ==> final(self)@ == old(self)@.committed(),
            !r ==> final(self)@ == old(self)@,
            final(self).documents == old(self).documents,
    {
        match self.generation.checked_add(1) {
            None => false,
            Some(next) => {
                self.generation = next;
                if self.fde_ann.is_some() {
                    let mut taken: Option<FdeAnn> = None;
                    std::mem::swap(&mut taken, &mut self.fde_ann);
                    if let Some(mut ann) = taken {
                        ann.generation = next;
                        self.fde_ann = Some(ann);
                    }
                }
                assert(self@ == old(self)@.committed());
                true
            },
        }
    }
}

/// The documents for which one of the first `n` points stands.
spec fn live_documents(ann: AnnView, n: int) -> Set<Seq<char>> {
    Set::new(|id: Seq<char>| exists|point: int| point < n && #[trigger] ann.live(point) && ann.base[point] == id)
}

proof fn lemma_live_documents(ann: AnnView, n: int)
    requires
        ann.base.no_duplicates(),
        ann.tombstones.len() == ann.base.len(),
        0 <= n <= ann.base.len(),
    ensures
        live_documents(ann, n).finite(),
        live_documents(ann, n).len() == n - marks(ann.tombstones.take(n)),
    decreases n,
{
    if n == 0 {
        assert(live_documents(ann, 0) =~= Set::<Seq<char>>::empty());
        assert(ann.tombstones.take(0) =~= Seq::<bool>::empty());
    } else {
        lemma_live_documents(ann, n - 1);
        let before = live_documents(ann, n - 1);
        let id = ann.base[n - 1];
        assert(ann.tombstones.take(n).drop_last() =~= ann.tombstones.take(n - 1));
        assert(ann.tombstones.take(n).last() == ann.tombstones[n - 1]);
        if ann.tombstones[n - 1] {
            assert(live_documents(ann, n) =~= before) by {
                assert forall|x: Seq<char>| live_documents(ann, n).contains(x) implies before.contains(x) by {
                    let point = choose|point: int| point < n && #[trigger] ann.live(point) && ann.base[point] == x;
                    assert(point < n - 1);
                }
            }
        } else {
            assert(ann.live(n - 1));
            assert(!before.contains(id)) by {
                if before.contains(id) {
                    let point = choose|point: int| point < n - 1 && #[trigger] ann.live(point) && ann.base[point] == id;
                    assert(ann.base[point] != ann.base[n - 1]);
                }
            }
            assert(live_documents(ann, n) =~= before.insert(id)) by {
                assert forall|x: Seq<char>| live_documents(ann, n).contains(x) implies before.insert(id).contains(x) by {
                    let point = choose|point: int| point < n && #[trigger] ann.live(point) && ann.base[point] == x;
                    if point < n - 1 {
                        assert(before.contains(x));
                    }
                }
            }
        }
    }
}

proof fn lemma_set_size<V>(map: IdMap<V>)
    requires
        map.wf(),
    ensures
        map.contents().dom().finite(),
        map.contents().dom().len() == map.ids().len(),
{
    ids::law_ascending_ids_are_distinct(map.ids());
    map.ids().unique_seq_to_set();
    assert(map.contents().dom() =~= map.ids().to_set());
}

/// The points that stand for a document and the documents written since are
/// together as many as there are documents: none is missing and none counted
/// twice.
pub proof fn law_overlay_counts_documents(ann: FdeAnn, documents: IdMap<DocumentRecord>)
    requires
        ann.ok(),
        documents.wf(),
        ann@.covers(records(documents).dom()),
    ensures
        marks(ann@.tombstones) <= ann@.base.len(),
        ann@.base.len() - marks(ann@.tombstones) + ann.delta.ids().len() == documents.ids().len(),
{
    let a = ann@;
    let n = a.base.len() as int;
    let docs = records(documents).dom();
    lemma_live_documents(a, n);
    assert(a.tombstones.take(n) =~= a.tombstones);
    lemma_set_size(ann.delta);
    lemma_set_size(documents);
    assert(docs =~= documents.contents().dom());
    let live = live_documents(a, n);
    assert(live.disjoint(a.delta)) by {
        assert forall|x: Seq<char>| live.contains(x) implies !a.delta.contains(x) by {
            let point = choose|point: int| point < n && #[trigger] a.live(point) && a.base[point] == x;
        }
    }
    assert(live + a.delta =~= docs) by {
        assert forall|x: Seq<char>| (live + a.delta).contains(x) implies docs.contains(x) by {
            if live.contains(x) {
                let point = choose|point: int| point < n && #[trigger] a.live(point) && a.base[point] == x;
                assert(docs.contains(a.base[point]));
            }
        }
        assert forall|x: Seq<char>| docs.contains(x) implies (live + a.delta).contains(x) by {
            if !a.delta.contains(x) {
                let point = choose|point: int| #[trigger] a.live(point) && a.base[point] == x;
                assert(point < n);
            }
        }
    }
    vstd::set_lib::lemma_set_disjoint_lens(live, a.delta);
}

} // verus!
