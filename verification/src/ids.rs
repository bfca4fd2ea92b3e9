//! Collections keyed by document ids, held in the order of the ids.

use vstd::prelude::*;
use vstd::string::StringSliceAdditionalSpecFns;

verus! {

/// Whether `a` stands before `b` in the order of byte strings: at the first place
/// where they differ `a` has the smaller byte, or `a` ends there.
pub open spec fn bytes_less(a: Seq<u8>, b: Seq<u8>) -> bool
    decreases a.len(),
{
    if b.len() == 0 {
        false
    } else if a.len() == 0 {
        true
    } else if a[0] != b[0] {
        a[0] < b[0]
    } else {
        bytes_less(a.drop_first(), b.drop_first())
    }
}

/// The order of ids: that of the bytes of their UTF-8 encodings.
pub open spec fn id_less(a: Seq<char>, b: Seq<char>) -> bool {
    bytes_less(vstd::utf8::encode_utf8(a), vstd::utf8::encode_utf8(b))
}

proof fn lemma_bytes_less_irreflexive(a: Seq<u8>)
    ensures
        !bytes_less(a, a),
    decreases a.len(),
{
    if a.len() > 0 {
        lemma_bytes_less_irreflexive(a.drop_first());
    }
}

proof fn lemma_bytes_less_transitive(a: Seq<u8>, b: Seq<u8>, c: Seq<u8>)
    requires
        bytes_less(a, b),
        bytes_less(b, c),
    ensures
        bytes_less(a, c),
    decreases a.len(),
{
    if a.len() > 0 && b.len() > 0 && c.len() > 0 && a[0] == b[0] && b[0] == c[0] {
        lemma_bytes_less_transitive(a.drop_first(), b.drop_first(), c.drop_first());
    }
}

/// Ids are ordered strictly: none stands before itself, and what stands before
/// another stands before all that follow that one.
pub proof fn law_id_order_is_strict(a: Seq<char>, b: Seq<char>, c: Seq<char>)
    ensures
        !id_less(a, a),
        id_less(a, b) && id_less(b, c) ==> id_less(a, c),
{
    lemma_bytes_less_irreflexive(vstd::utf8::encode_utf8(a));
    if id_less(a, b) && id_less(b, c) {
        lemma_bytes_less_transitive(
            vstd::utf8::encode_utf8(a),
            vstd::utf8::encode_utf8(b),
            vstd::utf8::encode_utf8(c),
        );
    }
}

/// Of two different byte strings one stands before the other.
proof fn lemma_bytes_less_total(a: Seq<u8>, b: Seq<u8>)
    ensures
        a == b || bytes_less(a, b) || bytes_less(b, a),
    decreases a.len(),
{
    if a.len() == 0 || b.len() == 0 {
        if a.len() == 0 && b.len() == 0 {
            assert(a =~= b);
        }
    } else if a[0] == b[0] {
        lemma_bytes_less_total(a.drop_first(), b.drop_first());
        if a.drop_first() == b.drop_first() {
            assert(a =~= seq![a[0]] + a.drop_first());
            assert(b =~= seq![b[0]] + b.drop_first());
        }
    }
}

/// Whether `a` stands before `b` in the order of ids.
pub fn is_id_less(a: &str, b: &str) -> (r: bool)
    ensures
        r == id_less(a@, b@),
{
    let x: &[u8] = a.as_bytes();
    let y: &[u8] = b.as_bytes();
    let mut i: usize = 0;
    assert(x@.skip(0) =~= x@ && y@.skip(0) =~= y@);
    while i < x.len() && i < y.len()
        invariant
            i <= x@.len(),
            i <= y@.len(),
            x@ == vstd::utf8::encode_utf8(a@),
            y@ == vstd::utf8::encode_utf8(b@),
            bytes_less(x@, y@) == bytes_less(x@.skip(i as int), y@.skip(i as int)),
        decreases x@.len() - i,
    {
        if x[i] != y[i] {
            return x[i] < y[i];
        }
        assert(x@.skip(i as int).drop_first() =~= x@.skip(i + 1));
        assert(y@.skip(i as int).drop_first() =~= y@.skip(i + 1));
        i += 1;
    }
    i < y.len()
}

/// Whether two ids are the same.
pub fn is_same_id(a: &str, b: &str) -> (r: bool)
    ensures
        r == (a@ == b@),
{
    let less: bool = is_id_less(a, b);
    let greater: bool = is_id_less(b, a);
    proof {
        lemma_bytes_less_total(vstd::utf8::encode_utf8(a@), vstd::utf8::encode_utf8(b@));
        lemma_bytes_less_irreflexive(vstd::utf8::encode_utf8(a@));
        if vstd::utf8::encode_utf8(a@) == vstd::utf8::encode_utf8(b@) {
            vstd::utf8::encode_utf8_decode_utf8(a@);
            vstd::utf8::encode_utf8_decode_utf8(b@);
        }
    }
    !less && !greater
}

/// A map from ids, held in the order of the ids.
pub struct IdMap<V> {
    pub keys: Vec<String>,
    pub values: Vec<V>,
}

/// A set of ids, held in their order.
pub type IdSet = IdMap<()>;

/// The ids of a list.
pub open spec fn names(keys: Seq<String>) -> Seq<Seq<char>> {
    keys.map_values(|key: String| key@)
}

/// Whether every id stands before all that follow it.
pub open spec fn ascending_ids(keys: Seq<Seq<char>>) -> bool {
    forall|i: int, j: int| 0 <= i < j < keys.len() ==> id_less(#[trigger] keys[i], #[trigger] keys[j])
}

/// Among ascending ids none occurs twice.
pub proof fn law_ascending_ids_are_distinct(keys: Seq<Seq<char>>)
    requires
        ascending_ids(keys),
    ensures
        keys.no_duplicates(),
{
    assert forall|i: int, j: int| 0 <= i < keys.len() && 0 <= j < keys.len() && i != j implies keys[i] != keys[j] by {
        law_id_order_is_strict(keys[i], keys[i], keys[i]);
        if i < j {
            assert(id_less(keys[i], keys[j]));
        } else {
            assert(id_less(keys[j], keys[i]));
        }
    }
}

/// Ids have one ascending arrangement.
pub proof fn law_ascending_ids_are_unique(a: Seq<Seq<char>>, b: Seq<Seq<char>>)
    requires
        ascending_ids(a),
        ascending_ids(b),
        forall|id: Seq<char>| #[trigger] a.contains(id) <==> b.contains(id),
    ensures
        a == b,
    decreases a.len(),
{
    if a.len() == 0 {
        if b.len() > 0 {
            assert(b.contains(b[0]));
            assert(a.contains(b[0]));
        }
        assert(a =~= b);
    } else {
        assert(a.contains(a[0]));
        assert(b.contains(a[0]));
        let k = choose|k: int| 0 <= k < b.len() && b[k] == a[0];
        assert(b.contains(b[0]));
        assert(a.contains(b[0]));
        let j = choose|j: int| 0 <= j < a.len() && a[j] == b[0];
        if k > 0 && j > 0 {
            assert(id_less(b[0], b[k]) && id_less(a[0], a[j]));
            law_id_order_is_strict(a[0], b[0], a[0]);
        }
        law_ascending_ids_are_distinct(a);
        law_ascending_ids_are_distinct(b);
        let x = a.drop_first();
        let y = b.drop_first();
        assert forall|id: Seq<char>| #[trigger] x.contains(id) <==> y.contains(id) by {
            if x.contains(id) {
                let m = choose|m: int| 0 <= m < x.len() && x[m] == id;
                assert(a[m + 1] == id && a.contains(id));
                let n = choose|n: int| 0 <= n < b.len() && b[n] == id;
                assert(y[n - 1] == id);
            }
            if y.contains(id) {
                let m = choose|m: int| 0 <= m < y.len() && y[m] == id;
                assert(b[m + 1] == id && b.contains(id));
                assert(a.contains(id));
                let n = choose|n: int| 0 <= n < a.len() && a[n] == id;
                assert(x[n - 1] == id);
            }
        }
        law_ascending_ids_are_unique(x, y);
        assert(a =~= seq![a[0]] + x);
        assert(b =~= seq![b[0]] + y);
    }
}

impl<V> IdMap<V> {
    /// The ids, in ascending order.
    pub open spec fn ids(&self) -> Seq<Seq<char>> {
        names(self.keys@)
    }

    /// Whether the ids ascend and each has its value.
    pub open spec fn wf(&self) -> bool {
        &&& self.keys@.len() == self.values@.len()
        &&& ascending_ids(self.ids())
    }

    /// Where an id stands.
    pub open spec fn index_of(&self, id: Seq<char>) -> int {
        choose|i: int| 0 <= i < self.ids().len() && #[trigger] self.ids()[i] == id
    }

    /// What the map holds.
    pub open spec fn contents(&self) -> Map<Seq<char>, V> {
        Map::new(|id: Seq<char>| self.ids().contains(id), |id: Seq<char>| self.values@[self.index_of(id)])
    }

    /// The id at a position maps to the value at that position.
    pub proof fn lemma_entry(&self, i: int)
        requires
            self.wf(),
            0 <= i < self.keys@.len(),
        ensures
            self.contents().dom().contains(self.ids()[i]),
            self.contents()[self.ids()[i]] == self.values@[i],
            self.index_of(self.ids()[i]) == i,
    {
        law_ascending_ids_are_distinct(self.ids());
        let id = self.ids()[i];
        assert(self.ids().contains(id));
        let k = self.index_of(id);
        assert(0 <= k < self.ids().len() && self.ids()[k] == id);
        assert(k == i);
    }

    /// Every id that the map holds has a position.
    pub proof fn lemma_position(&self, id: Seq<char>) -> (i: int)
        requires
            self.wf(),
            self.contents().dom().contains(id),
        ensures
            0 <= i < self.keys@.len(),
            self.ids()[i] == id,
            self.contents()[id] == self.values@[i],
    {
        let i = self.index_of(id);
        assert(self.ids().contains(id));
        i
    }

    /// A map that holds nothing.
    pub fn new() -> (r: Self)
        ensures
            r.wf(),
            r.contents() == Map::<Seq<char>, V>::empty(),
            r.keys@.len() == 0,
    {
        let r = IdMap { keys: Vec::new(), values: Vec::new() };
        assert(r.contents() =~= Map::<Seq<char>, V>::empty());
        r
    }

    /// How many ids the map holds.
    pub fn len(&self) -> (r: usize)
        requires
            self.wf(),
        ensures
            r == self.ids().len(),
    {
        self.keys.len()
    }

    /// Whether the map holds nothing.
    pub fn is_empty(&self) -> (r: bool)
        requires
            self.wf(),
        ensures
            r == (self.ids().len() == 0),
    {
        self.keys.len() == 0
    }

    /// How many ids stand before `id`.
    fn lower_bound(&self, id: &str) -> (r: usize)
        requires
            self.wf(),
        ensures
            r <= self.keys@.len(),
            forall|i: int| 0 <= i < r ==> id_less(#[trigger] self.ids()[i], id@),
            forall|i: int| r <= i < self.keys@.len() ==> !id_less(#[trigger] self.ids()[i], id@),
    {
        let mut low: usize = 0;
        let mut high: usize = self.keys.len();
        while low < high
            invariant
                self.wf(),
                low <= high <= self.keys@.len(),
                forall|i: int| 0 <= i < low ==> id_less(#[trigger] self.ids()[i], id@),
                forall|i: int| high <= i < self.keys@.len() ==> !id_less(#[trigger] self.ids()[i], id@),
            decreases high - low,
        {
            let mid: usize = low + (high - low) / 2;
            let ghost at = self.ids()[mid as int];
            if is_id_less(self.keys[mid].as_str(), id) {
                assert forall|i: int| 0 <= i < mid + 1 implies id_less(#[trigger] self.ids()[i], id@) by {
                    law_id_order_is_strict(self.ids()[i], at, id@);
                }
                low = mid + 1;
            } else {
                assert forall|i: int| mid <= i < self.keys@.len() implies !id_less(#[trigger] self.ids()[i], id@) by {
                    law_id_order_is_strict(at, self.ids()[i], id@);
                }
                high = mid;
            }
        }
        low
    }

    /// The position of an id.
    pub fn find(&self, id: &str) -> (r: Option<usize>)
        requires
            self.wf(),
        ensures
            match r {
                Some(i) => i < self.keys@.len() && self.ids()[i as int] == id@ && self.contents().dom().contains(id@)
                    && self.contents()[id@] == self.values@[i as int],
                None => !self.contents().dom().contains(id@),
            },
    {
        let at: usize = self.lower_bound(id);
        if at < self.keys.len() && is_same_id(self.keys[at].as_str(), id) {
            proof {
                self.lemma_entry(at as int);
            }
            return Some(at);
        }
        proof {
            if self.contents().dom().contains(id@) {
                let i = self.lemma_position(id@);
                law_id_order_is_strict(id@, id@, id@);
                assert(!id_less(self.ids()[i], id@));
                assert(i >= at);
                if i > at {
                    assert(id_less(self.ids()[at as int], self.ids()[i]));
                }
            }
        }
        None
    }

    /// Whether the map holds an id.
    pub fn contains_key(&self, id: &str) -> (r: bool)
        requires
            self.wf(),
        ensures
            r == self.contents().dom().contains(id@),
    {
        match self.find(id) {
            Some(_) => true,
            None => false,
        }
    }

    /// The value of an id.
    pub fn get(&self, id: &str) -> (r: Option<&V>)
        requires
            self.wf(),
        ensures
            match r {
                Some(v) => self.contents().dom().contains(id@) && *v == self.contents()[id@],
                None => !self.contents().dom().contains(id@),
            },
    {
        match self.find(id) {
            Some(i) => Some(&self.values[i]),
            None => None,
        }
    }

    /// Gives an id a value, in place of the one that it has.
    pub fn insert(&mut self, id: String, value: V)
        requires
            old(self).wf(),
        ensures
            final(self).wf(),
            final(self).contents() == old(self).contents().insert(id@, value),
    {
        let at: usize = self.lower_bound(id.as_str());
        let ghost name = id@;
        proof {
            law_id_order_is_strict(name, name, name);
        }
        if at < self.keys.len() && is_same_id(self.keys[at].as_str(), id.as_str()) {
            self.values.set(at, value);
            proof {
                assert(self.keys@ == old(self).keys@);
                assert forall|k: Seq<char>|
                    self.contents().dom().contains(k) == old(self).contents().insert(name, value).dom().contains(k) by {
                    old(self).lemma_entry(at as int);
                }
                assert forall|k: Seq<char>| #[trigger] self.contents().dom().contains(k) implies self.contents()[k]
                    == old(self).contents().insert(name, value)[k] by {
                    let i = self.lemma_position(k);
                    old(self).lemma_entry(i);
                    old(self).lemma_entry(at as int);
                    law_ascending_ids_are_distinct(old(self).ids());
                }
                assert(self.contents() =~= old(self).contents().insert(name, value));
            }
        } else {
            proof {
                if at < self.keys@.len() {
                    assert(!id_less(self.ids()[at as int], name));
                    lemma_bytes_less_total(
                        vstd::utf8::encode_utf8(self.ids()[at as int]),
                        vstd::utf8::encode_utf8(name),
                    );
                    vstd::utf8::encode_utf8_decode_utf8(self.ids()[at as int]);
                    vstd::utf8::encode_utf8_decode_utf8(name);
                    assert(id_less(name, self.ids()[at as int]));
                }
            }
            self.keys.insert(at, id);
            self.values.insert(at, value);
            proof {
                let before = old(self).ids();
                let after = self.ids();
                assert(after =~= before.insert(at as int, name));
                assert forall|i: int, j: int| 0 <= i < j < after.len() implies id_less(
                    #[trigger] after[i],
                    #[trigger] after[j],
                ) by {
                    let x = if i < at { i } else { i - 1 };
                    let y = if j < at { j } else { j - 1 };
                    if i == at {
                        assert(after[j] == before[j - 1]);
                        if j - 1 > at {
                            assert(id_less(before[at as int], before[j - 1]));
                            law_id_order_is_strict(name, before[at as int], before[j - 1]);
                        }
                    } else if j == at {
                        assert(id_less(before[i], name));
                    } else {
                        assert(after[i] == before[x] && after[j] == before[y]);
                        assert(id_less(before[x], before[y]));
                    }
                }
                assert(self.wf());
                let goal = old(self).contents().insert(name, value);
                assert forall|k: Seq<char>| self.contents().dom().contains(k) == goal.dom().contains(k) by {
                    if self.contents().dom().contains(k) {
                        let i = self.lemma_position(k);
                        if i != at {
                            old(self).lemma_entry(if i < at { i } else { i - 1 });
                        }
                    }
                    if goal.dom().contains(k) {
                        if k == name {
                            assert(after[at as int] == name);
                        } else {
                            let i = old(self).lemma_position(k);
                            assert(after[if i < at { i } else { i + 1 }] == k);
                        }
                    }
                }
                assert forall|k: Seq<char>| #[trigger] self.contents().dom().contains(k) implies self.contents()[k]
                    == goal[k] by {
                    let i = self.lemma_position(k);
                    if i != at {
                        let x = if i < at { i } else { i - 1 };
                        old(self).lemma_entry(x);
                        if i < at {
                            assert(id_less(before[i], name));
                        } else {
                            assert(id_less(after[at as int], after[i]));
                        }
                    }
                }
                assert(self.contents() =~= goal);
            }
        }
    }

    /// Drops an id and its value.
    pub fn remove(&mut self, id: &str) -> (r: Option<V>)
        requires
            old(self).wf(),
        ensures
            final(self).wf(),
            final(self).contents() == old(self).contents().remove(id@),
            match r {
                Some(v) => old(self).contents().dom().contains(id@) && v == old(self).contents()[id@],
                None => !old(self).contents().dom().contains(id@),
            },
    {
        match self.find(id) {
            None => {
                assert(self.contents() =~= old(self).contents().remove(id@));
                None
            },
            Some(at) => {
                let ghost before = self.ids();
                self.keys.remove(at);
                let value: V = self.values.remove(at);
                proof {
                    let after = self.ids();
                    assert(after =~= before.remove(at as int));
                    assert forall|i: int, j: int| 0 <= i < j < after.len() implies id_less(
                        #[trigger] after[i],
                        #[trigger] after[j],
                    ) by {
                        let x = if i < at { i } else { i + 1 };
                        let y = if j < at { j } else { j + 1 };
                        assert(id_less(before[x], before[y]));
                    }
                    law_ascending_ids_are_distinct(before);
                    let goal = old(self).contents().remove(id@);
                    assert forall|k: Seq<char>| self.contents().dom().contains(k) == goal.dom().contains(k) by {
                        if self.contents().dom().contains(k) {
                            let i = self.lemma_position(k);
                            old(self).lemma_entry(if i < at { i } else { i + 1 });
                        }
                        if goal.dom().contains(k) {
                            let i = old(self).lemma_position(k);
                            assert(i != at);
                            assert(after[if i < at { i } else { i - 1 }] == k);
                        }
                    }
                    assert forall|k: Seq<char>| #[trigger] self.contents().dom().contains(k) implies self.contents()[k]
                        == goal[k] by {
                        let i = self.lemma_position(k);
                        old(self).lemma_entry(if i < at { i } else { i + 1 });
                    }
                    assert(self.contents() =~= goal);
                }
                Some(value)
            },
        }
    }
}

} // verus!
