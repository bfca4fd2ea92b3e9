//! An inverted index of sparse vectors.

use vstd::prelude::*;
use std::collections::HashMap;
use crate::arith;
use crate::order;
use crate::score::Score;
use crate::tally;
use crate::tally::Tally;

verus! {

broadcast use vstd::std_specs::hash::group_hash_axioms;

/// A sparse vector: features and their values, side by side.
#[derive(Clone, Debug)]
pub struct SparseVector {
    pub indices: Vec<u32>,
    pub values: Vec<Score>,
}

/// The indices of pairs.
pub open spec fn pair_keys(pairs: Seq<(u32, Score)>) -> Seq<i64> {
    pairs.map_values(|pair: (u32, Score)| pair.0 as i64)
}

/// Pairs by ascending index; pairs of equal indices keep their order.
pub open spec fn sorted_features(pairs: Seq<(u32, Score)>) -> Seq<(u32, Score)> {
    let order = order::stable_order(pair_keys(pairs));
    Seq::new(pairs.len(), |i: int| pairs[order[i] as int])
}

impl SparseVector {
    /// The features with their values, as far as there are both.
    pub open spec fn features(&self) -> Seq<(u32, Score)> {
        Seq::new(
            if self.indices@.len() < self.values@.len() {
                self.indices@.len()
            } else {
                self.values@.len()
            },
            |i: int| (self.indices@[i], self.values@[i]),
        )
    }

    /// A vector without features.
    pub fn new() -> (r: Self)
        ensures
            r.indices@.len() == 0,
            r.values@.len() == 0,
            r.features().len() == 0,
    {
        SparseVector { indices: Vec::new(), values: Vec::new() }
    }

    /// The vector of pairs of a feature and its value.
    pub fn from_pairs(pairs: &[(u32, Score)]) -> (r: Self)
        ensures
            r.features() == sorted_features(pairs@),
            r.indices@.len() == pairs@.len(),
            r.values@.len() == pairs@.len(),
    {
        let mut keys: Vec<i64> = Vec::with_capacity(pairs.len());
        let mut i: usize = 0;
        while i < pairs.len()
            invariant
                i <= pairs@.len(),
                keys@ == pair_keys(pairs@).take(i as int),
            decreases pairs@.len() - i,
        {
            keys.push(pairs[i].0 as i64);
            i += 1;
        }
        assert(keys@ =~= pair_keys(pairs@));
        let order: Vec<usize> = order::stable_order_of(keys.as_slice());
        proof {
            let count = keys.len();
            order::law_stable_order(keys@);
        }
        let ghost goal = sorted_features(pairs@);
        let mut indices: Vec<u32> = Vec::with_capacity(order.len());
        let mut values: Vec<Score> = Vec::with_capacity(order.len());
        let mut i: usize = 0;
        while i < order.len()
            invariant
                i <= order@.len(),
                order@.len() == pairs@.len(),
                keys@ == pair_keys(pairs@),
                goal == sorted_features(pairs@),
                forall|k: int|
                    0 <= k < order@.len() ==> #[trigger] order@[k] == order::stable_order(keys@)[k] && order@[k]
                        < pairs@.len(),
                indices@.len() == i,
                values@.len() == i,
                forall|k: int| 0 <= k < i ==> #[trigger] goal[k] == (indices@[k], values@[k]),
            decreases order@.len() - i,
        {
            let at: usize = order[i];
            indices.push(pairs[at].0);
            values.push(pairs[at].1);
            assert(goal[i as int] == pairs@[at as int]);
            i += 1;
        }
        let r = SparseVector { indices, values };
        assert(r.features() =~= goal);
        r
    }

    /// How many features the vector has.
    pub fn len(&self) -> (r: usize)
        ensures
            r == self.indices@.len(),
    {
        self.indices.len()
    }

    /// Whether the vector has no features.
    pub fn is_empty(&self) -> (r: bool)
        ensures
            r == (self.indices@.len() == 0),
    {
        self.indices.len() == 0
    }
}

impl Default for SparseVector {
    fn default() -> (r: Self)
        ensures
            r.indices@.len() == 0,
            r.values@.len() == 0,
    {
        SparseVector::new()
    }
}

/// The documents that have a feature, by their numbers, with its values.
#[derive(Debug)]
pub struct Posting {
    pub entries: Vec<(u32, Score)>,
}

/// The postings of features.
pub open spec fn entries_of(postings: Seq<Posting>) -> Seq<Seq<(u32, Score)>> {
    postings.map_values(|posting: Posting| posting.entries@)
}

/// An inverted index in memory.
pub struct SparseIndex {
    pub postings: Vec<Posting>,
    pub id_to_local: HashMap<u64, u32>,
    pub local_to_id: Vec<u64>,
    /// The sum of each document's values.
    pub doc_lens: Vec<Score>,
    /// The bit pattern of the double-precision sum of all documents' values.
    pub total_len: u64,
}

/// Whether `f` combines any total with any length, the same way each time.
pub open spec fn is_totalling<F: Fn(u64, Score) -> u64>(f: F) -> bool {
    &&& forall|total: u64, len: Score| #[trigger] f.requires((total, len))
    &&& forall|total: u64, len: Score, r: u64, s: u64|
        #[trigger] f.ensures((total, len), r) && #[trigger] f.ensures((total, len), s) ==> r == s
}

/// A total combined with a length.
pub open spec fn totalled<F: Fn(u64, Score) -> u64>(f: F, total: u64, len: Score) -> u64 {
    choose|r: u64| f.ensures((total, len), r)
}

/// The entries of other documents.
pub open spec fn others(entries: Seq<(u32, Score)>, doc: u32) -> Seq<(u32, Score)>
    decreases entries.len(),
{
    if entries.len() == 0 {
        Seq::empty()
    } else if entries.last().0 == doc {
        others(entries.drop_last(), doc)
    } else {
        others(entries.drop_last(), doc).push(entries.last())
    }
}

/// The postings without a document.
pub open spec fn without_doc(postings: Seq<Seq<(u32, Score)>>, doc: u32) -> Seq<Seq<(u32, Score)>> {
    Seq::new(postings.len(), |f: int| others(postings[f], doc))
}

/// The postings with room for a feature.
pub open spec fn extended_to(postings: Seq<Seq<(u32, Score)>>, feature: int) -> Seq<Seq<(u32, Score)>> {
    if feature < postings.len() {
        postings
    } else {
        Seq::new(
            (feature + 1) as nat,
            |f: int|
                if f < postings.len() {
                    postings[f]
                } else {
                    Seq::empty()
                },
        )
    }
}

/// The postings with a document's features.
pub open spec fn with_features(postings: Seq<Seq<(u32, Score)>>, doc: u32, features: Seq<(u32, Score)>) -> Seq<
    Seq<(u32, Score)>,
>
    decreases features.len(),
{
    if features.len() == 0 {
        postings
    } else {
        let before = with_features(postings, doc, features.drop_last());
        let (feature, value) = features.last();
        let room = extended_to(before, feature as int);
        room.update(feature as int, room[feature as int].push((doc, value)))
    }
}

/// The sum of a document's values, from zero.
pub open spec fn doc_len<A: Fn(Score, Score) -> Score>(add: A, features: Seq<(u32, Score)>) -> Score
    decreases features.len(),
{
    if features.len() == 0 {
        0
    } else {
        arith::binary(add, doc_len(add, features.drop_last()), features.last().1)
    }
}

impl SparseIndex {
    /// The postings.
    pub open spec fn entries(&self) -> Seq<Seq<(u32, Score)>> {
        entries_of(self.postings@)
    }

    /// Whether the documents and their numbers belong together, and every entry is
    /// of a document.
    pub open spec fn wf(&self) -> bool {
        &&& self.doc_lens@.len() == self.local_to_id@.len()
        &&& self.local_to_id@.len() <= 0x1_0000_0000
        &&& forall|i: int|
            0 <= i < self.local_to_id@.len() ==> self.id_to_local@.dom().contains(#[trigger] self.local_to_id@[i])
                && self.id_to_local@[self.local_to_id@[i]] == i
        &&& forall|id: u64| #[trigger]
            self.id_to_local@.dom().contains(id) ==> self.id_to_local@[id] < self.local_to_id@.len()
                && self.local_to_id@[self.id_to_local@[id] as int] == id
        &&& docs_within(self.entries(), self.local_to_id@.len())
    }
}

/// Whether every entry is of one of `docs` documents.
pub open spec fn docs_within(postings: Seq<Seq<(u32, Score)>>, docs: nat) -> bool {
    forall|f: int, e: int| 0 <= f < postings.len() && 0 <= e < postings[f].len() ==> (#[trigger] postings[f][e]).0 < docs
}

/// The number that a document has, or gets.
pub open spec fn local_of(index: SparseIndex, id: u64) -> u32 {
    if index.id_to_local@.dom().contains(id) {
        index.id_to_local@[id]
    } else {
        index.local_to_id@.len() as u32
    }
}

proof fn lemma_others(entries: Seq<(u32, Score)>, doc: u32, docs: nat)
    requires
        forall|e: int| 0 <= e < entries.len() ==> (#[trigger] entries[e]).0 < docs,
    ensures
        forall|e: int|
            0 <= e < others(entries, doc).len() ==> (#[trigger] others(entries, doc)[e]).0 < docs && others(
                entries,
                doc,
            )[e].0 != doc,
    decreases entries.len(),
{
    if entries.len() > 0 {
        let rest = entries.drop_last();
        assert forall|e: int| 0 <= e < rest.len() implies (#[trigger] rest[e]).0 < docs by {
            assert(entries[e].0 < docs);
        }
        lemma_others(rest, doc, docs);
        assert(entries[entries.len() - 1].0 < docs);
        let before = others(rest, doc);
        let out = others(entries, doc);
        assert forall|e: int| 0 <= e < out.len() implies (#[trigger] out[e]).0 < docs && out[e].0 != doc by {
            if e < before.len() {
                assert(out[e] == before[e]);
            }
        }
    }
}

impl SparseIndex {
    /// An index without documents; `total_len` starts at zero.
    pub fn new() -> (r: Self)
        ensures
            r.wf(),
            r.local_to_id@.len() == 0,
            r.entries().len() == 0,
            r.total_len == 0,
    {
        SparseIndex {
            postings: Vec::new(),
            id_to_local: HashMap::new(),
            local_to_id: Vec::new(),
            doc_lens: Vec::new(),
            total_len: 0,
        }
    }

    /// How many documents there are.
    pub fn len(&self) -> (r: usize)
        ensures
            r == self.local_to_id@.len(),
    {
        self.local_to_id.len()
    }

    /// Whether there are no documents.
    pub fn is_empty(&self) -> (r: bool)
        ensures
            r == (self.local_to_id@.len() == 0),
    {
        self.local_to_id.len() == 0
    }

    /// Takes a document out of every posting.
    fn drop_entries(&mut self, doc: u32)
        requires
            old(self).wf(),
        ensures
            final(self).wf(),
            final(self).entries() == without_doc(old(self).entries(), doc),
            *final(self) == (SparseIndex { postings: final(self).postings, ..*old(self) }),
    {
        let ghost before = *self;
        let mut f: usize = 0;
        while f < self.postings.len()
            invariant
                f <= self.postings@.len(),
                before.wf(),
                self.postings@.len() == before.postings@.len(),
                *self == (SparseIndex { postings: self.postings, ..before }),
                forall|k: int|
                    0 <= k < self.postings@.len() ==> (#[trigger] self.postings@[k]).entries@ == if k < f {
                        others(before.entries()[k], doc)
                    } else {
                        before.entries()[k]
                    },
            decreases self.postings@.len() - f,
        {
            let ghost current = self.postings@;
            let kept: Vec<(u32, Score)> = keep_others(&self.postings[f].entries, doc);
            self.postings.set(f, Posting { entries: kept });
            f += 1;
        }
        assert(self.entries() =~= without_doc(before.entries(), doc));
        proof {
            let entries = self.entries();
            assert forall|f: int, e: int| 0 <= f < entries.len() && 0 <= e < entries[f].len() implies (
            #[trigger] entries[f][e]).0 < self.local_to_id@.len() by {
                let old_entries = before.entries()[f];
                assert forall|e: int| 0 <= e < old_entries.len() implies (#[trigger] old_entries[e]).0
                    < self.local_to_id@.len() by {
                    assert(before.entries()[f][e].0 < before.local_to_id@.len());
                }
                lemma_others(old_entries, doc, self.local_to_id@.len());
            }
        }
    }

    /// Adds a feature's value of a document.
    fn add_entry(&mut self, feature: u32, doc: u32, value: Score)
        requires
            old(self).wf(),
            doc < old(self).local_to_id@.len(),
            feature < usize::MAX,
        ensures
            final(self).wf(),
            *final(self) == (SparseIndex { postings: final(self).postings, ..*old(self) }),
            ({
                let room = extended_to(old(self).entries(), feature as int);
                final(self).entries() == room.update(feature as int, room[feature as int].push((doc, value)))
            }),
    {
        let ghost before = *self;
        let at: usize = feature as usize;
        let ghost room = extended_to(before.entries(), feature as int);
        while self.postings.len() <= at
            invariant
                before.wf(),
                at == feature,
                at < usize::MAX,
                self.postings@.len() >= before.postings@.len(),
                self.postings@.len() > before.postings@.len() ==> self.postings@.len() <= at + 1,
                *self == (SparseIndex { postings: self.postings, ..before }),
                forall|k: int|
                    0 <= k < self.postings@.len() ==> (#[trigger] self.postings@[k]).entries@ == if k
                        < before.postings@.len() {
                        before.entries()[k]
                    } else {
                        Seq::<(u32, Score)>::empty()
                    },
            decreases at + 1 - self.postings@.len(),
        {
            self.postings.push(Posting { entries: Vec::new() });
        }
        assert(self.entries() =~= room);
        let ghost roomy = self.postings@;
        self.postings[at].entries.push((doc, value));
        let ghost goal = room.update(feature as int, room[feature as int].push((doc, value)));
        assert(self.entries() =~= goal);
        proof {
            assert forall|f: int, e: int| 0 <= f < goal.len() && 0 <= e < goal[f].len() implies (
            #[trigger] goal[f][e]).0 < self.local_to_id@.len() by {
                if f == feature && e == room[f].len() {
                } else if f < before.entries().len() {
                    assert(goal[f][e] == before.entries()[f][e]);
                    assert(before.entries()[f][e].0 < before.local_to_id@.len());
                }
            }
        }
    }

    /// Inserts a document, or replaces what it held.
    ///
    /// `add` sums up the document's values; `take_off` and `put_on` keep the sum of
    /// all documents'.
    pub fn upsert<A: Fn(Score, Score) -> Score, T: Fn(u64, Score) -> u64, P: Fn(u64, Score) -> u64>(
        &mut self,
        id: u64,
        vec: &SparseVector,
        add: &A,
        take_off: &T,
        put_on: &P,
    )
        requires
            old(self).wf(),
            old(self).local_to_id@.len() < 0x1_0000_0000,
            forall|i: int| 0 <= i < vec.indices@.len() ==> (#[trigger] vec.indices@[i]) < usize::MAX,
            arith::is_binary(*add),
            is_totalling(*take_off),
            is_totalling(*put_on),
        ensures
            final(self).wf(),
            final(self).entries() == with_features(
                without_doc(old(self).entries(), local_of(*old(self), id)),
                local_of(*old(self), id),
                vec.features(),
            ),
            old(self).id_to_local@.dom().contains(id) ==> final(self).local_to_id@ == old(self).local_to_id@
                && final(self).id_to_local@ == old(self).id_to_local@,
            !old(self).id_to_local@.dom().contains(id) ==> final(self).local_to_id@ == old(self).local_to_id@.push(id)
                && final(self).id_to_local@ == old(self).id_to_local@.insert(id, local_of(*old(self), id)),
            final(self).doc_lens@ == (if old(self).id_to_local@.dom().contains(id) {
                old(self).doc_lens@
            } else {
                old(self).doc_lens@.push(0)
            }).update(local_of(*old(self), id) as int, doc_len(*add, vec.features())),
            final(self).total_len == totalled(
                *put_on,
                if old(self).id_to_local@.dom().contains(id) {
                    totalled(
                        *take_off,
                        old(self).total_len,
                        old(self).doc_lens@[local_of(*old(self), id) as int],
                    )
                } else {
                    old(self).total_len
                },
                doc_len(*add, vec.features()),
            ),
    {
        let ghost before = *self;
        let known: Option<u32> = match self.id_to_local.get(&id) {
            Some(local) => Some(*local),
            None => None,
        };
        let local: u32 = match known {
            Some(existing) => {
                let total: u64 = take_off(self.total_len, self.doc_lens[existing as usize]);
                self.total_len = total;
                self.doc_lens.set(existing as usize, 0);
                self.drop_entries(existing);
                existing
            },
            None => {
                let new_local: u32 = self.local_to_id.len() as u32;
                proof {
                    lemma_no_entries(before.entries(), new_local);
                }
                self.local_to_id.push(id);
                self.id_to_local.insert(id, new_local);
                self.doc_lens.push(0);
                new_local
            },
        };
        let ghost start = without_doc(before.entries(), local);
        assert(self.entries() == start);
        assert(self.wf());
        let ghost staged = *self;
        let ghost features = vec.features();
        let n: usize = if vec.indices.len() < vec.values.len() {
            vec.indices.len()
        } else {
            vec.values.len()
        };
        let mut length: Score = 0;
        let mut i: usize = 0;
        while i < n
            invariant
                i <= n,
                n == features.len(),
                n <= vec.indices@.len(),
                n <= vec.values@.len(),
                features == vec.features(),
                forall|i: int| 0 <= i < vec.indices@.len() ==> (#[trigger] vec.indices@[i]) < usize::MAX,
                arith::is_binary(*add),
                self.wf(),
                local < self.local_to_id@.len(),
                *self == (SparseIndex { postings: self.postings, ..staged }),
                self.entries() == with_features(start, local, features.take(i as int)),
                length == doc_len(*add, features.take(i as int)),
            decreases n - i,
        {
            assert(features.take(i + 1).drop_last() =~= features.take(i as int));
            assert(features.take(i + 1).last() == (vec.indices@[i as int], vec.values@[i as int]));
            self.add_entry(vec.indices[i], local, vec.values[i]);
            length = arith::apply_binary(add, length, vec.values[i]);
            i += 1;
        }
        assert(features.take(i as int) =~= features);
        self.doc_lens.set(local as usize, length);
        let total: u64 = put_on(self.total_len, length);
        self.total_len = total;
        assert(self.entries() == with_features(start, local, features));
    }
}

/// The entries of other documents.
fn keep_others(entries: &Vec<(u32, Score)>, doc: u32) -> (r: Vec<(u32, Score)>)
    ensures
        r@ == others(entries@, doc),
{
    let mut out: Vec<(u32, Score)> = Vec::new();
    let mut e: usize = 0;
    while e < entries.len()
        invariant
            e <= entries@.len(),
            out@ == others(entries@.take(e as int), doc),
        decreases entries@.len() - e,
    {
        assert(entries@.take(e + 1).drop_last() =~= entries@.take(e as int));
        assert(entries@.take(e + 1).last() == entries@[e as int]);
        if entries[e].0 != doc {
            out.push(entries[e]);
        }
        e += 1;
    }
    assert(entries@.take(e as int) =~= entries@);
    out
}

proof fn lemma_keeps_all(entries: Seq<(u32, Score)>, doc: u32)
    requires
        forall|e: int| 0 <= e < entries.len() ==> (#[trigger] entries[e]).0 < doc,
    ensures
        others(entries, doc) == entries,
    decreases entries.len(),
{
    if entries.len() > 0 {
        let rest = entries.drop_last();
        assert forall|e: int| 0 <= e < rest.len() implies (#[trigger] rest[e]).0 < doc by {
            assert(entries[e].0 < doc);
        }
        lemma_keeps_all(rest, doc);
        assert(entries[entries.len() - 1].0 < doc);
        assert(rest.push(entries.last()) =~= entries);
    } else {
        assert(others(entries, doc) =~= entries);
    }
}

/// A number that no document has occurs in no posting.
proof fn lemma_no_entries(postings: Seq<Seq<(u32, Score)>>, doc: u32)
    requires
        docs_within(postings, doc as nat),
    ensures
        without_doc(postings, doc) == postings,
{
    assert forall|f: int| 0 <= f < postings.len() implies others(postings[f], doc) == #[trigger] postings[f] by {
        assert forall|e: int| 0 <= e < postings[f].len() implies (#[trigger] postings[f][e]).0 < doc by {}
        lemma_keeps_all(postings[f], doc);
    }
    assert(without_doc(postings, doc) =~= postings);
}

/// The values of one document among entries, in their order.
pub open spec fn values_of(entries: Seq<(u32, Score)>, doc: u32) -> Seq<Score>
    decreases entries.len(),
{
    if entries.len() == 0 {
        Seq::empty()
    } else if entries.last().0 == doc {
        values_of(entries.drop_last(), doc).push(entries.last().1)
    } else {
        values_of(entries.drop_last(), doc)
    }
}

/// The entries of a feature, none where there is no posting for it.
pub open spec fn entries_for(postings: Seq<Seq<(u32, Score)>>, feature: u32) -> Seq<(u32, Score)> {
    if feature < postings.len() {
        postings[feature as int]
    } else {
        Seq::empty()
    }
}

proof fn lemma_others_have_none(entries: Seq<(u32, Score)>, doc: u32)
    ensures
        values_of(others(entries, doc), doc) == Seq::<Score>::empty(),
        others(others(entries, doc), doc) == others(entries, doc),
    decreases entries.len(),
{
    if entries.len() > 0 {
        let rest = entries.drop_last();
        lemma_others_have_none(rest, doc);
        if entries.last().0 != doc {
            let before = others(rest, doc);
            assert(before.push(entries.last()).drop_last() =~= before);
        }
    }
}

proof fn lemma_pushed(entries: Seq<(u32, Score)>, doc: u32, value: Score)
    ensures
        values_of(entries.push((doc, value)), doc) == values_of(entries, doc).push(value),
        others(entries.push((doc, value)), doc) == others(entries, doc),
{
    assert(entries.push((doc, value)).drop_last() =~= entries);
}

proof fn lemma_with_features(
    postings: Seq<Seq<(u32, Score)>>,
    doc: u32,
    features: Seq<(u32, Score)>,
    feature: u32,
)
    ensures
        values_of(entries_for(with_features(postings, doc, features), feature), doc) == values_of(
            entries_for(postings, feature),
            doc,
        ) + values_of(features, feature),
        others(entries_for(with_features(postings, doc, features), feature), doc) == others(
            entries_for(postings, feature),
            doc,
        ),
    decreases features.len(),
{
    let start = values_of(entries_for(postings, feature), doc);
    if features.len() > 0 {
        lemma_with_features(postings, doc, features.drop_last(), feature);
        let before = with_features(postings, doc, features.drop_last());
        let (last, value) = features.last();
        let room = extended_to(before, last as int);
        assert(entries_for(room, feature) == entries_for(before, feature));
        let after = with_features(postings, doc, features);
        if last == feature {
            lemma_pushed(room[last as int], doc, value);
            assert(entries_for(after, feature) == room[last as int].push((doc, value)));
            assert((start + values_of(features.drop_last(), feature)).push(value) =~= start + values_of(
                features,
                feature,
            ));
        } else {
            assert(entries_for(after, feature) == entries_for(room, feature));
        }
    } else {
        assert(start + values_of(features, feature) =~= start);
    }
}

/// An upsert replaces what a document held: of each feature it has just the
/// values that its new vector gives, and the entries of all other documents stay
/// as they were.
pub proof fn law_upsert_replaces_the_document(
    before: Seq<Seq<(u32, Score)>>,
    doc: u32,
    features: Seq<(u32, Score)>,
    feature: u32,
)
    ensures
        ({
            let after = with_features(without_doc(before, doc), doc, features);
            &&& values_of(entries_for(after, feature), doc) == values_of(features, feature)
            &&& others(entries_for(after, feature), doc) == others(entries_for(before, feature), doc)
        }),
{
    let cleared = without_doc(before, doc);
    lemma_with_features(cleared, doc, features, feature);
    lemma_others_have_none(entries_for(before, feature), doc);
    assert(entries_for(cleared, feature) == others(entries_for(before, feature), doc));
    assert(Seq::<Score>::empty() + values_of(features, feature) =~= values_of(features, feature));
}

/// What a document and a feature contribute to a BM25 score.
#[derive(Clone, Copy, Debug, PartialEq, Eq, Structural)]
pub struct Bm25Term {
    /// The value of the feature in the query.
    pub query_value: Score,
    /// The value of the feature in the document.
    pub term_frequency: Score,
    /// The sum of the document's values.
    pub doc_len: Score,
    /// How many documents have the feature.
    pub document_frequency: usize,
    /// How many documents there are.
    pub documents: usize,
    /// The bit pattern of the sum of all documents' values.
    pub total_len: u64,
}

/// Whether `f` weighs any term, the same way each time.
pub open spec fn is_weighing<W: Fn(Bm25Term) -> Score>(f: W) -> bool {
    &&& forall|term: Bm25Term| #[trigger] f.requires((term,))
    &&& forall|term: Bm25Term, r: Score, s: Score|
        #[trigger] f.ensures((term,), r) && #[trigger] f.ensures((term,), s) ==> r == s
}

/// What a term contributes.
pub open spec fn weighed<W: Fn(Bm25Term) -> Score>(f: W, term: Bm25Term) -> Score {
    choose|r: Score| f.ensures((term,), r)
}

impl SparseIndex {
    /// The term of an entry of a feature.
    pub open spec fn term(&self, feature: u32, query_value: Score, e: int) -> Bm25Term {
        let entries = self.entries()[feature as int];
        Bm25Term {
            query_value,
            term_frequency: entries[e].1,
            doc_len: self.doc_lens@[entries[e].0 as int],
            document_frequency: entries.len() as usize,
            documents: self.local_to_id@.len() as usize,
            total_len: self.total_len,
        }
    }

    /// What the entries of a feature contribute to the documents' scores.
    pub open spec fn feature_parts<W: Fn(Bm25Term) -> Score>(
        &self,
        weigh: W,
        feature: u32,
        query_value: Score,
    ) -> Seq<(u64, Score)> {
        if feature < self.entries().len() {
            let entries = self.entries()[feature as int];
            Seq::new(
                entries.len(),
                |e: int|
                    (
                        self.local_to_id@[entries[e].0 as int],
                        weighed(weigh, self.term(feature, query_value, e)),
                    ),
            )
        } else {
            Seq::empty()
        }
    }

    /// What the features of a query contribute to the documents' scores.
    pub open spec fn query_parts<W: Fn(Bm25Term) -> Score>(&self, weigh: W, query: Seq<(u32, Score)>) -> Seq<
        (u64, Score),
    >
        decreases query.len(),
    {
        if query.len() == 0 {
            Seq::empty()
        } else {
            self.query_parts(weigh, query.drop_last()) + self.feature_parts(weigh, query.last().0, query.last().1)
        }
    }

    /// The documents that share features with a query, with the sums of what those
    /// contribute: best first, the smaller id first among equals, up to `top_k`.
    pub fn search_bm25<W: Fn(Bm25Term) -> Score, A: Fn(Score, Score) -> Score>(
        &self,
        query: &SparseVector,
        top_k: usize,
        weigh: &W,
        add: &A,
    ) -> (r: Vec<(u64, Score)>)
        requires
            self.wf(),
            is_weighing(*weigh),
            arith::is_binary(*add),
        ensures
            r@ == tally::top_tallied(*add, self.query_parts(*weigh, query.features()), top_k as int),
    {
        let ghost features = query.features();
        let n: usize = if query.indices.len() < query.values.len() {
            query.indices.len()
        } else {
            query.values.len()
        };
        let mut scores: Tally = Tally::new();
        let mut i: usize = 0;
        while i < n
            invariant
                i <= n,
                n == features.len(),
                n <= query.indices@.len(),
                n <= query.values@.len(),
                features == query.features(),
                self.wf(),
                is_weighing(*weigh),
                arith::is_binary(*add),
                scores.wf(),
                scores.items@ == tally::tallied(*add, self.query_parts(*weigh, features.take(i as int))),
            decreases n - i,
        {
            let feature: u32 = query.indices[i];
            let query_value: Score = query.values[i];
            let ghost before = self.query_parts(*weigh, features.take(i as int));
            let ghost parts = self.feature_parts(*weigh, feature, query_value);
            assert(features.take(i + 1).drop_last() =~= features.take(i as int));
            assert(features.take(i + 1).last() == (feature, query_value));
            assert(before + parts.take(0) =~= before);
            if (feature as usize) < self.postings.len() {
                let entries: &Vec<(u32, Score)> = &self.postings[feature as usize].entries;
                assert(entries@ == self.entries()[feature as int]);
                let documents: usize = self.local_to_id.len();
                let mut e: usize = 0;
                while e < entries.len()
                    invariant
                        e <= entries@.len(),
                        documents == self.local_to_id@.len(),
                        feature < self.entries().len(),
                        entries@ == self.entries()[feature as int],
                        parts == self.feature_parts(*weigh, feature, query_value),
                        self.wf(),
                        is_weighing(*weigh),
                        arith::is_binary(*add),
                        scores.wf(),
                        scores.items@ == tally::tallied(*add, before + parts.take(e as int)),
                    decreases entries@.len() - e,
                {
                    let (doc, value): (u32, Score) = entries[e];
                    assert(self.entries()[feature as int][e as int].0 < self.local_to_id@.len());
                    let term = Bm25Term {
                        query_value,
                        term_frequency: value,
                        doc_len: self.doc_lens[doc as usize],
                        document_frequency: entries.len(),
                        documents,
                        total_len: self.total_len,
                    };
                    let part: Score = weigh(term);
                    assert(term == self.term(feature, query_value, e as int));
                    proof {
                        let next = (before + parts.take(e as int)).push(parts[e as int]);
                        assert(next.drop_last() =~= before + parts.take(e as int));
                        assert(next =~= before + parts.take(e + 1));
                    }
                    scores.count(add, self.local_to_id[doc as usize], part);
                    e += 1;
                }
                assert(parts.take(e as int) =~= parts);
            } else {
                assert(before + parts =~= before);
            }
            i += 1;
        }
        assert(features.take(i as int) =~= features);
        proof {
            order::law_ranking(scores.items@);
        }
        order::rank(scores.items.as_slice(), top_k)
    }
}

/// What the entries of a feature contribute by products.
pub open spec fn dot_parts<M: Fn(Score, Score) -> Score>(
    index: SparseIndex,
    multiply: M,
    feature: u32,
    query_value: Score,
) -> Seq<(u64, Score)> {
    let entries = entries_for(index.entries(), feature);
    Seq::new(
        entries.len(),
        |e: int| (index.local_to_id@[entries[e].0 as int], arith::binary(multiply, query_value, entries[e].1)),
    )
}

/// What the features of a query contribute by products.
pub open spec fn all_dot_parts<M: Fn(Score, Score) -> Score>(
    index: SparseIndex,
    multiply: M,
    query: Seq<(u32, Score)>,
) -> Seq<(u64, Score)>
    decreases query.len(),
{
    if query.len() == 0 {
        Seq::empty()
    } else {
        all_dot_parts(index, multiply, query.drop_last()) + dot_parts(
            index,
            multiply,
            query.last().0,
            query.last().1,
        )
    }
}

impl SparseIndex {
    /// The documents that share features with a query, with their dot products:
    /// best first, the smaller id first among equals, up to `top_k`.
    pub fn search_dot<M: Fn(Score, Score) -> Score, A: Fn(Score, Score) -> Score>(
        &self,
        query: &SparseVector,
        top_k: usize,
        multiply: &M,
        add: &A,
    ) -> (r: Vec<(u64, Score)>)
        requires
            self.wf(),
            arith::is_binary(*multiply),
            arith::is_binary(*add),
        ensures
            r@ == tally::top_tallied(*add, all_dot_parts(*self, *multiply, query.features()), top_k as int),
    {
        let ghost features = query.features();
        let n: usize = if query.indices.len() < query.values.len() {
            query.indices.len()
        } else {
            query.values.len()
        };
        let mut scores: Tally = Tally::new();
        let mut i: usize = 0;
        while i < n
            invariant
                i <= n,
                n == features.len(),
                n <= query.indices@.len(),
                n <= query.values@.len(),
                features == query.features(),
                self.wf(),
                arith::is_binary(*multiply),
                arith::is_binary(*add),
                scores.wf(),
                scores.items@ == tally::tallied(*add, all_dot_parts(*self, *multiply, features.take(i as int))),
            decreases n - i,
        {
            let feature: u32 = query.indices[i];
            let query_value: Score = query.values[i];
            let ghost before = all_dot_parts(*self, *multiply, features.take(i as int));
            let ghost parts = dot_parts(*self, *multiply, feature, query_value);
            assert(features.take(i + 1).drop_last() =~= features.take(i as int));
            assert(features.take(i + 1).last() == (feature, query_value));
            assert(before + parts.take(0) =~= before);
            if (feature as usize) < self.postings.len() {
                let entries: &Vec<(u32, Score)> = &self.postings[feature as usize].entries;
                assert(entries@ == self.entries()[feature as int]);
                let mut e: usize = 0;
                while e < entries.len()
                    invariant
                        e <= entries@.len(),
                        feature < self.entries().len(),
                        entries@ == self.entries()[feature as int],
                        parts == dot_parts(*self, *multiply, feature, query_value),
                        self.wf(),
                        arith::is_binary(*multiply),
                        arith::is_binary(*add),
                        scores.wf(),
                        scores.items@ == tally::tallied(*add, before + parts.take(e as int)),
                    decreases entries@.len() - e,
                {
                    let (doc, value): (u32, Score) = entries[e];
                    assert(self.entries()[feature as int][e as int].0 < self.local_to_id@.len());
                    let part: Score = arith::apply_binary(multiply, query_value, value);
                    proof {
                        let next = (before + parts.take(e as int)).push(parts[e as int]);
                        assert(next.drop_last() =~= before + parts.take(e as int));
                        assert(next =~= before + parts.take(e + 1));
                    }
                    scores.count(add, self.local_to_id[doc as usize], part);
                    e += 1;
                }
                assert(parts.take(e as int) =~= parts);
            } else {
                assert(before + parts =~= before);
            }
            i += 1;
        }
        assert(features.take(i as int) =~= features);
        proof {
            order::law_ranking(scores.items@);
        }
        order::rank(scores.items.as_slice(), top_k)
    }
}

} // verus!
